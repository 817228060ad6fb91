//! Chunks of serialized messages, compressed where that makes them shorter.
//!
//! A chunk is transmitted as a byte that tells whether it is compressed, two bytes with its length
//! as it is transmitted, and its bytes. Where no chunk is empty, the length is transmitted less 1.

use snap::raw::{Decoder, Encoder};
use vstd::prelude::*;

use crate::codec::{decode_u16, encode_u16, law_decode_encode_u16, read_u16, write_u16};
use crate::packet::{copy_to, PacketPool};
use crate::reliable_channel::reliability::Flow;
use crate::reliable_channel::{Error, ReliableChannel, Status};
use crate::snappy::{
    compress, decompress, decompressed_len, read_decompressed_len, snap_compressed,
    snap_decompressed,
};
use crate::stream_buffer::{
    law_drain_fills_channel, law_drain_keeps_stream, law_fill_in_steps, law_fill_keeps_arrived,
    ReadBuffer, RecvSide, SendSide, WriteBuffer,
};
use crate::windows::send::law_write_fills_window;

verus! {

/// The number of bytes before those of a chunk.
pub const HEADER_LEN: usize = 3;

/// Bytes as they are transmitted, where the length is transmitted less `bias`.
pub open spec fn with_header(compressed: bool, bytes: Seq<u8>, bias: nat) -> Seq<u8> {
    seq![
        if compressed {
            1u8
        } else {
            0u8
        },
    ] + encode_u16((bytes.len() - bias) as u16) + bytes
}

/// A chunk as it is transmitted.
pub open spec fn packed(chunk: Seq<u8>, bias: nat) -> Seq<u8> {
    if snap_compressed(chunk).len() < chunk.len() {
        with_header(true, snap_compressed(chunk), bias)
    } else {
        with_header(false, chunk, bias)
    }
}

/// The length of the chunk, with its header, that `bytes` start with, as far as they tell.
pub open spec fn packed_len(bytes: Seq<u8>, bias: nat) -> nat {
    if bytes.len() < HEADER_LEN {
        HEADER_LEN as nat
    } else {
        HEADER_LEN as nat + decode_u16(bytes.skip(1)) as nat + bias
    }
}

/// The chunk that is transmitted as `bytes`.
pub open spec fn unpacked(bytes: Seq<u8>) -> Option<Seq<u8>> {
    if bytes[0] != 0 {
        snap_decompressed(bytes.skip(HEADER_LEN as int))
    } else {
        Some(bytes.skip(HEADER_LEN as int))
    }
}

/// The length of the chunk that is transmitted as `bytes`, as their header has it.
pub open spec fn unpacked_len(bytes: Seq<u8>) -> Option<nat> {
    if bytes[0] != 0 {
        decompressed_len(bytes.skip(HEADER_LEN as int))
    } else {
        Some((bytes.len() - HEADER_LEN) as nat)
    }
}

/// `chunk` is what `bytes` stand for, which are no more than its own bytes and a header, and their
/// number can be told from that.
pub open spec fn transmits(bytes: Seq<u8>, chunk: Seq<u8>, bias: nat) -> bool {
    &&& HEADER_LEN <= bytes.len() <= HEADER_LEN + chunk.len()
    &&& packed_len(bytes, bias) == bytes.len()
    &&& unpacked(bytes) == Some(chunk)
    &&& unpacked_len(bytes) == Some(chunk.len())
}

/// The length of what is transmitted can be told from its header, whatever follows.
pub proof fn law_packed_len(compressed: bool, bytes: Seq<u8>, bias: nat, rest: Seq<u8>)
    requires
        bias <= bytes.len() <= u16::MAX + bias,
    ensures
        packed_len(with_header(compressed, bytes, bias) + rest, bias) == HEADER_LEN + bytes.len(),
        with_header(compressed, bytes, bias).skip(HEADER_LEN as int) == bytes,
        (with_header(compressed, bytes, bias)[0] != 0) == compressed,
{
    let frame = with_header(compressed, bytes, bias);
    let len = (bytes.len() - bias) as u16;
    law_decode_encode_u16(len, bytes + rest);
    assert((frame + rest).skip(1) =~= encode_u16(len) + (bytes + rest));
    assert(frame.skip(HEADER_LEN as int) =~= bytes);
}

/// A chunk is transmitted in as few bytes as it can be: compressed if that makes it shorter, as it is
/// otherwise, and with three more bytes in front. The first of them tells which, and the other two the
/// transmitted length.
pub proof fn law_packed_is_shortest(chunk: Seq<u8>, bias: nat)
    requires
        bias <= 1,
        0 < chunk.len() <= 65535 + bias,
    ensures
        packed(chunk, bias).len() <= 3 + chunk.len(),
        packed(chunk, bias).len() <= 3 + snap_compressed(chunk).len(),
        packed(chunk, bias)[0] != 0 <==> snap_compressed(chunk).len() < chunk.len(),
        packed(chunk, bias)[0] <= 1,
        packed(chunk, bias).skip(3) == (if snap_compressed(chunk).len() < chunk.len() {
            snap_compressed(chunk)
        } else {
            chunk
        }),
        snap_compressed(chunk).len() >= bias ==> decode_u16(packed(chunk, bias).skip(1)) + bias
            == packed(chunk, bias).len() - 3,
{
    let compressed = snap_compressed(chunk).len() < chunk.len();
    let bytes = if compressed {
        snap_compressed(chunk)
    } else {
        chunk
    };
    assert(packed(chunk, bias) == with_header(compressed, bytes, bias));
    assert(packed(chunk, bias).len() == 3 + bytes.len());
    assert(packed(chunk, bias).skip(3) =~= bytes);
    if bytes.len() >= bias {
        law_packed_len(compressed, bytes, bias, Seq::empty());
        assert(with_header(compressed, bytes, bias) + Seq::empty() =~= packed(chunk, bias));
    }
}

/// Packs a chunk.
pub(crate) fn pack(encoder: &mut Encoder, chunk: &[u8], bias: u16) -> (frame: Vec<u8>)
    requires
        bias <= 1,
        0 < chunk@.len() <= u16::MAX + bias,
    ensures
        frame@ == packed(chunk@, bias as nat),
        transmits(frame@, chunk@, bias as nat),
        frame@.len() <= 3 + chunk@.len(),
        frame@.len() <= 3 + snap_compressed(chunk@).len(),
        frame@[0] != 0 <==> snap_compressed(chunk@).len() < chunk@.len(),
        frame@.skip(3) == (if frame@[0] != 0 {
            snap_compressed(chunk@)
        } else {
            chunk@
        }),
{
    let max_len: usize = snap::raw::max_compress_len(chunk.len());
    let mut frame: Vec<u8> = vec![0;HEADER_LEN + max_len];
    let (_, body) = frame.as_mut_slice().split_at_mut(HEADER_LEN);
    let compressed_len: usize = match compress(encoder, chunk, body) {
        Ok(len) => len,
        Err(_) => 0,
    };
    frame.truncate(HEADER_LEN + compressed_len);
    assert(frame@.skip(HEADER_LEN as int) =~= snap_compressed(chunk@));
    if compressed_len >= chunk.len() {
        // The compressed chunk is no shorter, so the chunk is transmitted as it is.
        frame.truncate(HEADER_LEN + chunk.len());
        copy_to(frame.as_mut_slice(), HEADER_LEN, chunk);
        set_header(&mut frame, 0, chunk.len() - bias as usize);
        assert(frame@ =~= with_header(false, chunk@, bias as nat));
        proof {
            law_packed_len(false, chunk@, bias as nat, Seq::empty());
            assert(frame@ + Seq::empty() =~= frame@);
        }
    } else {
        set_header(&mut frame, 1, compressed_len - bias as usize);
        assert(frame@ =~= with_header(true, snap_compressed(chunk@), bias as nat));
        proof {
            law_packed_len(true, snap_compressed(chunk@), bias as nat, Seq::empty());
            assert(frame@ + Seq::empty() =~= frame@);
        }
    }
    proof {
        law_packed_is_shortest(chunk@, bias as nat);
    }
    frame
}

/// Writes the header of a chunk.
fn set_header(frame: &mut Vec<u8>, compressed: u8, len: usize)
    requires
        old(frame)@.len() >= HEADER_LEN,
        len <= u16::MAX,
    ensures
        final(frame)@ == seq![compressed] + encode_u16(len as u16) + old(frame)@.skip(
            HEADER_LEN as int,
        ),
{
    frame[0] = compressed;
    let (_, rest) = frame.as_mut_slice().split_at_mut(1);
    write_u16(rest, len as u16);
    assert(frame@ =~= seq![compressed] + encode_u16(len as u16) + old(frame)@.skip(
        HEADER_LEN as int,
    ));
}

/// Reads the transmitted length from the header of a chunk.
pub(crate) fn read_len(frame: &[u8], bias: u16) -> (len: usize)
    requires
        frame@.len() >= HEADER_LEN,
        bias <= 1,
    ensures
        HEADER_LEN + len == packed_len(frame@, bias as nat),
        len <= u16::MAX + bias,
{
    let bytes = vstd::slice::slice_subrange(frame, 1, HEADER_LEN);
    let len: usize = read_u16(bytes) as usize + bias as usize;
    assert(decode_u16(bytes@) == decode_u16(frame@.skip(1)));
    len
}

/// Messages on their way into a reliable channel.
#[verifier::ext_equal]
pub struct ChunkSendSide {
    /// The serialized messages that are not part of a packed chunk yet.
    pub queued: Seq<u8>,
    pub side: SendSide,
}

impl ChunkSendSide {
    /// What an attempt to pack the queued messages returns: whether none is left.
    pub open spec fn pack_result(self) -> Result<bool, Error> {
        if self.queued.len() == 0 {
            Ok(true)
        } else {
            self.side.drain_result()
        }
    }

    /// The state after an attempt to pack the queued messages.
    pub open spec fn after_pack(self, bias: nat) -> ChunkSendSide {
        if self.queued.len() == 0 {
            self
        } else if self.side.drain_result() == Ok::<bool, Error>(true) {
            ChunkSendSide {
                queued: Seq::empty(),
                side: SendSide { outgoing: packed(self.queued, bias), ..self.side.drained() },
            }
        } else {
            ChunkSendSide { side: self.side.drained(), ..self }
        }
    }

    /// If the queued messages are packed now, what is then to be written stands for them.
    pub open spec fn packs_faithfully(self, bias: nat) -> bool {
        self.queued.len() > 0 && self.side.drain_result() == Ok::<bool, Error>(true) ==> transmits(
            packed(self.queued, bias),
            self.queued,
            bias,
        )
    }

    /// What an attempt to queue a message of `len` bytes returns: whether it is queued.
    pub open spec fn send_result(self, len: nat, max: nat) -> Result<bool, Error> {
        if self.queued.len() + len > max {
            self.pack_result()
        } else {
            Ok(true)
        }
    }

    /// The state after an attempt to queue a message.
    pub open spec fn after_send(self, msg: Seq<u8>, max: nat, bias: nat) -> ChunkSendSide {
        let ready = if self.queued.len() + msg.len() > max {
            self.after_pack(bias)
        } else {
            self
        };
        if self.send_result(msg.len(), max) == Ok::<bool, Error>(true) {
            ChunkSendSide { queued: ready.queued + msg, ..ready }
        } else {
            ready
        }
    }

    /// What an attempt to send all messages returns: whether none is left.
    pub open spec fn flush_result(self, bias: nat) -> Result<bool, Error> {
        if self.pack_result() == Ok::<bool, Error>(true) {
            self.after_pack(bias).side.flush_result()
        } else {
            self.pack_result()
        }
    }

    /// The state after an attempt to send all messages.
    pub open spec fn after_flush(self, bias: nat) -> ChunkSendSide {
        let ready = self.after_pack(bias);
        if self.pack_result() == Ok::<bool, Error>(true) {
            ChunkSendSide { side: ready.side.drained(), ..ready }
        } else {
            ready
        }
    }
}

/// Messages are collected in one chunk as long as they fit into `max` bytes together. A message that no
/// longer fits starts a new chunk, once the messages before it have been packed, and those are packed only
/// once all of the chunk before them has been written. If that cannot be, the message is not queued.
pub proof fn law_messages_share_a_chunk(before: ChunkSendSide, msg: Seq<u8>, max: nat, bias: nat)
    requires
        before.queued.len() <= max,
        msg.len() <= max,
    ensures
        ({
            let result = before.send_result(msg.len(), max);
            let after = before.after_send(msg, max, bias);
            let fits = before.queued.len() + msg.len() <= max;
            let drained = before.side.drained();
            &&& after.queued.len() <= max
            &&& fits ==> result == Ok::<bool, Error>(true) && after.side == before.side
                && after.queued == before.queued + msg
            &&& !fits ==> result == before.side.drain_result()
            &&& !fits && result == Ok::<bool, Error>(true) ==> {
                &&& after.queued == msg
                &&& after.side.outgoing.skip(3) == before.queued || after.side.outgoing.skip(3)
                    == snap_compressed(before.queued)
                &&& after.side.window == drained.window
                &&& after.side.status == drained.status
                &&& drained.outgoing.len() == 0
            }
            &&& !fits && result != Ok::<bool, Error>(true) ==> {
                &&& after.queued == before.queued
                &&& after.side == drained
            }
        }),
{
    if before.queued.len() + msg.len() > max {
        let frame = packed(before.queued, bias);
        law_drain_keeps_stream(before.side);
        assert(frame.skip(3) =~= before.queued || frame.skip(3) =~= snap_compressed(before.queued));
        assert(Seq::<u8>::empty() + msg =~= msg);
    }
}

/// Sending all messages leaves nothing behind if it succeeds. While the channel works, it succeeds unless
/// the channel is full, and then no message is lost: what was queued is still queued, or has been packed.
pub proof fn law_flush_leaves_nothing(before: ChunkSendSide, bias: nat)
    requires
        before.side.window.valid(),
    ensures
        ({
            let result = before.flush_result(bias);
            let after = before.after_flush(bias);
            &&& result == Ok::<bool, Error>(true) ==> {
                &&& after.queued.len() == 0
                &&& after.side.outgoing.len() == 0
                &&& before.side.status !is Shutdown
            }
            &&& before.side.status is Running ==> {
                &&& result is Ok
                &&& result == Ok::<bool, Error>(false) ==> after.side.window.sent.len()
                    + after.side.window.pending.len() == before.side.window.capacity
                &&& result == Ok::<bool, Error>(true) <==> after.queued.len() == 0
                    && after.side.outgoing.len() == 0
                &&& after.queued == before.queued || {
                    &&& after.queued.len() == 0
                    &&& after.side.window.pending + after.side.outgoing
                        == before.side.window.pending + before.side.outgoing + packed(
                        before.queued,
                        bias,
                    )
                }
            }
            &&& before.side.status !is Running && (before.queued.len() == 0
                && before.side.outgoing.len() > 0 || before.side.status is Shutdown) ==> result
                is Err
        }),
{
    law_drain_keeps_stream(before.side);
    law_drain_fills_channel(before.side);
    let ready = before.after_pack(bias);
    law_drain_keeps_stream(ready.side);
    law_write_fills_window(before.side.window, before.side.outgoing);
    if ready.side.window.valid() {
        law_drain_fills_channel(ready.side);
    }
    assert(before.side.drained().outgoing.len() == 0 ==> before.side.drained().window.pending
        =~= before.side.window.pending + before.side.outgoing);
}

/// Collects messages in chunks and writes those to a reliable channel.
pub struct ChunkSender {
    max_chunk_len: usize,
    bias: u16,
    encoder: Encoder,
    send_chunk: Vec<u8>,
    write_buffer: WriteBuffer,
}

impl ChunkSender {
    pub closed spec fn max_chunk_len(&self) -> nat {
        self.max_chunk_len as nat
    }

    pub closed spec fn bias(&self) -> nat {
        self.bias as nat
    }

    pub closed spec fn queued(&self) -> Seq<u8> {
        self.send_chunk@
    }

    pub closed spec fn outgoing(&self) -> Seq<u8> {
        self.write_buffer@
    }

    pub closed spec fn wf(&self) -> bool {
        &&& self.bias <= 1
        &&& self.max_chunk_len <= u16::MAX + self.bias
        &&& self.send_chunk@.len() <= self.max_chunk_len
        &&& self.write_buffer.wf()
    }

    /// The state of the messages and the channel that they are sent over.
    pub open spec fn side<P: PacketPool, I: Copy>(
        &self,
        channel: ReliableChannel<P, I>,
    ) -> ChunkSendSide {
        ChunkSendSide {
            queued: self.queued(),
            side: SendSide {
                window: channel.shared.send_window@,
                status: channel.status,
                outgoing: self.outgoing(),
            },
        }
    }

    pub fn new(max_chunk_len: usize, bias: u16) -> (result: Self)
        requires
            bias <= 1,
            max_chunk_len <= u16::MAX + bias,
        ensures
            result.wf(),
            result.max_chunk_len() == max_chunk_len,
            result.bias() == bias,
            result.queued() == Seq::<u8>::empty(),
            result.outgoing() == Seq::<u8>::empty(),
    {
        ChunkSender {
            max_chunk_len,
            bias,
            encoder: Encoder::new(),
            send_chunk: Vec::new(),
            write_buffer: WriteBuffer::new(),
        }
    }

    /// Packs the queued messages, once the last chunk has been written. Returns `false` if the
    /// channel has no room for that.
    ///
    /// What is then to be written stands for the messages that were queued.
    pub fn write_send_chunk<P: PacketPool, I: Copy>(
        &mut self,
        channel: &mut ReliableChannel<P, I>,
    ) -> (result: Result<bool, Error>)
        requires
            old(self).wf(),
            old(channel).wf(),
        ensures
            final(self).wf(),
            final(self).max_chunk_len() == old(self).max_chunk_len(),
            final(self).bias() == old(self).bias(),
            final(channel).wf(),
            final(channel).task == old(channel).task,
            final(channel).shared.recv_window == old(channel).shared.recv_window,
            result == old(self).side(*old(channel)).pack_result(),
            final(self).side(*final(channel)) == old(self).side(*old(channel)).after_pack(
                old(self).bias(),
            ),
            old(self).side(*old(channel)).packs_faithfully(old(self).bias()),
    {
        if self.send_chunk.len() == 0 {
            return Ok(true);
        }
        match self.write_buffer.drain(channel) {
            Ok(true) => {
                let frame = pack(&mut self.encoder, self.send_chunk.as_slice(), self.bias);
                self.write_buffer.set(frame);
                self.send_chunk.clear();
                Ok(true)
            },
            other => other,
        }
    }

    /// Queues a message. Returns `false` if the messages that are queued already have to be written
    /// first, and the channel has no room for that.
    pub fn send<P: PacketPool, I: Copy>(
        &mut self,
        channel: &mut ReliableChannel<P, I>,
        msg: &[u8],
    ) -> (result: Result<bool, Error>)
        requires
            old(self).wf(),
            old(channel).wf(),
            msg@.len() <= old(self).max_chunk_len(),
        ensures
            final(self).wf(),
            final(self).max_chunk_len() == old(self).max_chunk_len(),
            final(self).bias() == old(self).bias(),
            final(channel).wf(),
            final(channel).task == old(channel).task,
            final(channel).shared.recv_window == old(channel).shared.recv_window,
            result == old(self).side(*old(channel)).send_result(
                msg@.len(),
                old(self).max_chunk_len(),
            ),
            final(self).side(*final(channel)) == old(self).side(*old(channel)).after_send(
                msg@,
                old(self).max_chunk_len(),
                old(self).bias(),
            ),
            old(self).queued().len() + msg@.len() <= old(self).max_chunk_len() ==> {
                &&& result == Ok::<bool, Error>(true)
                &&& *final(channel) == *old(channel)
                &&& final(self).queued() == old(self).queued() + msg@
                &&& final(self).outgoing() == old(self).outgoing()
            },
            old(self).queued().len() + msg@.len() > old(self).max_chunk_len() ==> old(self).side(
                *old(channel),
            ).packs_faithfully(old(self).bias()),
    {
        if self.max_chunk_len - self.send_chunk.len() < msg.len() {
            match self.write_send_chunk(channel) {
                Ok(true) => {},
                other => {
                    return other;
                },
            }
        }
        self.send_chunk.extend_from_slice(msg);
        Ok(true)
    }

    /// Sends all messages. Returns `false` if the channel has no room for them.
    pub fn flush<P: PacketPool, I: Copy>(&mut self, channel: &mut ReliableChannel<P, I>) -> (result:
        Result<bool, Error>)
        requires
            old(self).wf(),
            old(channel).wf(),
        ensures
            final(self).wf(),
            final(self).max_chunk_len() == old(self).max_chunk_len(),
            final(self).bias() == old(self).bias(),
            final(channel).wf(),
            final(channel).task == old(channel).task,
            final(channel).shared.recv_window == old(channel).shared.recv_window,
            result == old(self).side(*old(channel)).flush_result(old(self).bias()),
            final(self).side(*final(channel)) == old(self).side(*old(channel)).after_flush(
                old(self).bias(),
            ),
            old(self).side(*old(channel)).packs_faithfully(old(self).bias()),
    {
        match self.write_send_chunk(channel) {
            Ok(true) => {},
            other => {
                return other;
            },
        }
        match self.write_buffer.drain(channel) {
            Ok(true) => {},
            other => {
                return other;
            },
        }
        match channel.flush() {
            Ok(()) => Ok(true),
            Err(error) => Err(error),
        }
    }
}

/// Why the bytes of a chunk cannot be read.
#[derive(Debug, Clone, Copy, PartialEq, Eq, Structural)]
pub enum FrameError {
    ReliableChannelError(Error),
    /// More bytes than allowed are announced.
    TooLarge,
}

impl RecvSide {
    /// Whether a chunk is announced that takes more than `max` bytes.
    pub open spec fn frame_too_large(self, max: nat, bias: nat) -> bool {
        packed_len(self.arrived(), bias) > HEADER_LEN + max
    }

    /// How many bytes of the current chunk are wanted.
    pub open spec fn frame_wanted(self, max: nat, bias: nat) -> nat {
        if self.frame_too_large(max, bias) {
            HEADER_LEN as nat
        } else {
            packed_len(self.arrived(), bias)
        }
    }

    /// What an attempt to have a whole chunk returns: whether it is there.
    pub open spec fn frame_result(self, max: nat, bias: nat) -> Result<bool, FrameError> {
        match self.fill_result(self.frame_wanted(max, bias)) {
            Err(error) => Err(FrameError::ReliableChannelError(error)),
            Ok(done) => if done && self.frame_too_large(max, bias) {
                Err(FrameError::TooLarge)
            } else {
                Ok(done)
            },
        }
    }

    /// The state after an attempt to have a whole chunk.
    pub open spec fn after_frame(self, max: nat, bias: nat) -> RecvSide {
        self.filled(self.frame_wanted(max, bias))
    }
}

/// Why no message can be received.
#[derive(Debug, PartialEq, Eq)]
pub enum ChunkError {
    ReliableChannelError(Error),
    /// A chunk is longer than allowed.
    TooLarge,
    /// A chunk is not what compression makes, with the text of the reason.
    SnapError(String),
}

/// What comes of an attempt to receive a message.
pub enum Outcome {
    /// There is one.
    Ready,
    /// It has not arrived yet.
    Pending,
    Failed(Error),
    TooLarge,
    Corrupt,
}

impl Outcome {
    /// `result` tells of this outcome.
    pub open spec fn is_told_by(self, result: Result<bool, ChunkError>) -> bool {
        match self {
            Outcome::Ready => result == Ok::<bool, ChunkError>(true),
            Outcome::Pending => result == Ok::<bool, ChunkError>(false),
            Outcome::Failed(error) => result == Err::<bool, ChunkError>(
                ChunkError::ReliableChannelError(error),
            ),
            Outcome::TooLarge => result == Err::<bool, ChunkError>(ChunkError::TooLarge),
            Outcome::Corrupt => result matches Err(ChunkError::SnapError(_)),
        }
    }
}

/// Messages on their way out of a reliable channel.
#[verifier::ext_equal]
pub struct ChunkRecvSide {
    /// The bytes of the last chunk that have not been handed out yet.
    pub unread: Seq<u8>,
    pub side: RecvSide,
}

/// The state after an attempt to receive a message, and what comes of it.
///
/// Chunks are read until one of them holds a message. A chunk that is longer than `max` after
/// decompression is too large if `strict`, and corrupt otherwise.
pub open spec fn receiving(before: ChunkRecvSide, max: nat, bias: nat, strict: bool) -> (
    Outcome,
    ChunkRecvSide,
)
    decreases before.side.arrived().len(),
{
    let side = before.side.after_frame(max, bias);
    let stuck = ChunkRecvSide { side, ..before };
    if before.unread.len() > 0 {
        (Outcome::Ready, before)
    } else {
        match before.side.frame_result(max, bias) {
            Err(FrameError::ReliableChannelError(error)) => (Outcome::Failed(error), stuck),
            Err(FrameError::TooLarge) => (Outcome::TooLarge, stuck),
            Ok(false) => (Outcome::Pending, stuck),
            Ok(true) => match (unpacked(side.incoming), unpacked_len(side.incoming)) {
                (_, None) => (Outcome::Corrupt, stuck),
                (None, Some(len)) => if strict && len > max {
                    (Outcome::TooLarge, stuck)
                } else {
                    (Outcome::Corrupt, stuck)
                },
                (Some(chunk), Some(len)) => if len > max {
                    if strict {
                        (Outcome::TooLarge, stuck)
                    } else {
                        (Outcome::Corrupt, stuck)
                    }
                } else {
                    let next = ChunkRecvSide {
                        unread: chunk,
                        side: RecvSide { incoming: Seq::empty(), ..side },
                    };
                    proof {
                        law_fill_keeps_arrived(before.side, before.side.frame_wanted(max, bias));
                    }
                    receiving(next, max, bias, strict)
                },
            },
        }
    }
}

/// The messages of a chunk that was sent are received as soon as the last byte of the chunk has
/// arrived, and what was sent after it stays in the channel.
pub proof fn law_chunk_arrives(
    before: ChunkRecvSide,
    frame: Seq<u8>,
    chunk: Seq<u8>,
    rest: Seq<u8>,
    max: nat,
    bias: nat,
    strict: bool,
)
    requires
        before.unread.len() == 0,
        before.side.status == Status::Running,
        before.side.arrived() == frame + rest,
        before.side.incoming.len() <= frame.len(),
        transmits(frame, chunk, bias),
        0 < chunk.len() <= max,
    ensures
        ({
            let (outcome, after) = receiving(before, max, bias, strict);
            &&& outcome == Outcome::Ready
            &&& after.unread == chunk
            &&& after.side.arrived() == rest
            &&& after.side.incoming.len() == 0
        }),
{
    let side = before.side;
    let filled = side.after_frame(max, bias);
    assert(decode_u16((frame + rest).skip(1)) == decode_u16(frame.skip(1)));
    assert(side.frame_wanted(max, bias) == frame.len());
    law_fill_keeps_arrived(side, frame.len());
    assert(filled.incoming =~= frame) by {
        assert(filled.incoming =~= (frame + rest).take(frame.len() as int));
    }
    assert(filled.window.ready =~= (frame + rest).skip(frame.len() as int));
    assert(filled.window.ready =~= rest);
    let next = ChunkRecvSide {
        unread: chunk,
        side: RecvSide { incoming: Seq::empty(), ..filled },
    };
    assert(next.side.arrived() =~= rest);
    reveal_with_fuel(receiving, 2);
}

/// What of the last chunk has not been handed out yet comes first: the channel is left alone as long as
/// there is any.
pub proof fn law_unread_comes_first(before: ChunkRecvSide, max: nat, bias: nat, strict: bool)
    requires
        before.unread.len() > 0,
    ensures
        receiving(before, max, bias, strict) == (Outcome::Ready, before),
{
}

/// A chunk of which bytes are missing is waited for, and nothing of it is dropped.
pub proof fn law_partial_chunk_waits(
    before: ChunkRecvSide,
    frame: Seq<u8>,
    chunk: Seq<u8>,
    n: int,
    max: nat,
    bias: nat,
    strict: bool,
)
    requires
        before.unread.len() == 0,
        before.side.status == Status::Running,
        0 <= n < frame.len(),
        before.side.arrived() == frame.take(n),
        transmits(frame, chunk, bias),
        chunk.len() <= max,
    ensures
        ({
            let (outcome, after) = receiving(before, max, bias, strict);
            &&& outcome == Outcome::Pending
            &&& after.unread.len() == 0
            &&& after.side.arrived() == before.side.arrived()
            &&& after.side.status == Status::Running
        }),
{
    if n >= HEADER_LEN {
        assert(decode_u16(frame.take(n).skip(1)) == decode_u16(frame.skip(1)));
    }
    law_fill_keeps_arrived(before.side, before.side.frame_wanted(max, bias));
}

/// A chunk whose header announces more than `max` transmitted bytes is too large, and nothing of it is read
/// but the header.
pub proof fn law_large_chunk_refused(before: ChunkRecvSide, max: nat, bias: nat, strict: bool)
    requires
        before.unread.len() == 0,
        before.side.status == Status::Running,
        before.side.incoming.len() <= 3,
        before.side.arrived().len() >= 3,
        before.side.arrived()[1] + 256 * before.side.arrived()[2] + bias > max,
    ensures
        ({
            let (outcome, after) = receiving(before, max, bias, strict);
            &&& outcome == Outcome::TooLarge
            &&& after.unread.len() == 0
            &&& after.side.arrived() == before.side.arrived()
            &&& after.side.incoming.len() == 3
        }),
{
    law_fill_keeps_arrived(before.side, before.side.frame_wanted(max, bias));
}

/// A compressed chunk that has arrived is refused if it is not what compression makes, or if it says that it
/// is longer than `max` once it is decompressed. The latter counts as too large if `strict`, and as
/// corrupt otherwise.
pub proof fn law_corrupt_chunk_refused(
    before: ChunkRecvSide,
    frame: Seq<u8>,
    rest: Seq<u8>,
    max: nat,
    bias: nat,
    strict: bool,
)
    requires
        before.unread.len() == 0,
        before.side.status == Status::Running,
        before.side.arrived() == frame + rest,
        before.side.incoming.len() <= frame.len(),
        3 <= frame.len() <= 3 + max,
        frame[1] + 256 * frame[2] + bias == frame.len() - 3,
        frame[0] != 0,
    ensures
        ({
            let (outcome, after) = receiving(before, max, bias, strict);
            let payload = frame.skip(3);
            &&& decompressed_len(payload) is None ==> outcome == Outcome::Corrupt
            &&& decompressed_len(payload) matches Some(len) ==> {
                &&& len > max && strict ==> outcome == Outcome::TooLarge
                &&& len > max && !strict ==> outcome == Outcome::Corrupt
                &&& len <= max && snap_decompressed(payload) is None ==> outcome == Outcome::Corrupt
                &&& len <= max && snap_decompressed(payload) is Some
                    && snap_decompressed(payload)->0.len() > 0 ==> outcome == Outcome::Ready
                    && after.unread == snap_decompressed(payload)->0
            }
        }),
{
    let side = before.side;
    let filled = side.after_frame(max, bias);
    assert(side.frame_wanted(max, bias) == frame.len());
    law_fill_keeps_arrived(side, frame.len());
    assert(filled.incoming =~= frame) by {
        assert(filled.incoming =~= (frame + rest).take(frame.len() as int));
    }
    reveal_with_fuel(receiving, 2);
}

/// A chunk that is not compressed is handed out as it is, and one that is empty is passed over.
pub proof fn law_plain_chunk_arrives(
    before: ChunkRecvSide,
    frame: Seq<u8>,
    rest: Seq<u8>,
    max: nat,
    bias: nat,
    strict: bool,
)
    requires
        before.unread.len() == 0,
        before.side.status == Status::Running,
        before.side.arrived() == frame + rest,
        before.side.incoming.len() <= frame.len(),
        3 <= frame.len() <= 3 + max,
        frame[1] + 256 * frame[2] + bias == frame.len() - 3,
        frame[0] == 0,
    ensures
        ({
            let (outcome, after) = receiving(before, max, bias, strict);
            let next = ChunkRecvSide {
                unread: Seq::empty(),
                side: RecvSide { incoming: Seq::empty(), ..before.side.filled(frame.len()) },
            };
            &&& frame.len() > 3 ==> outcome == Outcome::Ready && after.unread == frame.skip(3)
                && after.side.arrived() == rest
            &&& frame.len() == 3 ==> (outcome, after) == receiving(next, max, bias, strict)
                && next.side.arrived() == rest
        }),
{
    let side = before.side;
    let filled = side.after_frame(max, bias);
    assert(side.frame_wanted(max, bias) == frame.len());
    law_fill_keeps_arrived(side, frame.len());
    assert(filled.incoming =~= frame) by {
        assert(filled.incoming =~= (frame + rest).take(frame.len() as int));
    }
    assert(filled.window.ready =~= (frame + rest).skip(frame.len() as int));
    assert(filled.window.ready =~= rest);
    let next = ChunkRecvSide {
        unread: frame.skip(3),
        side: RecvSide { incoming: Seq::empty(), ..filled },
    };
    assert(next.side.arrived() =~= rest);
    if frame.len() == 3 {
        assert(next.unread =~= Seq::<u8>::empty());
    }
    reveal_with_fuel(receiving, 2);
}

/// A channel that has failed is told of as soon as it would have to be read from, with its error.
pub proof fn law_failed_channel_told(
    before: ChunkRecvSide,
    error: Error,
    max: nat,
    bias: nat,
    strict: bool,
)
    requires
        before.unread.len() == 0,
        before.side.incoming.len() < 3,
        before.side.status == Status::Failed(error) || before.side.status == Status::Shutdown
            && error == Error::Shutdown,
    ensures
        receiving(before, max, bias, strict).0 == Outcome::Failed(error),
        receiving(before, max, bias, strict).1.side.status == Status::Shutdown,
{
}

/// Each outcome is told by a result of its own.
pub proof fn law_outcomes_are_told(result: Result<bool, ChunkError>, error: Error)
    ensures
        Outcome::Ready.is_told_by(result) <==> result == Ok::<bool, ChunkError>(true),
        Outcome::Pending.is_told_by(result) <==> result == Ok::<bool, ChunkError>(false),
        Outcome::Failed(error).is_told_by(result) <==> result == Err::<bool, ChunkError>(
            ChunkError::ReliableChannelError(error),
        ),
        Outcome::TooLarge.is_told_by(result) <==> result == Err::<bool, ChunkError>(
            ChunkError::TooLarge,
        ),
        Outcome::Corrupt.is_told_by(result) <==> result is Err && result->Err_0 is SnapError,
{
}

/// What is transmitted for some chunks, one after the other.
pub open spec fn joined(frames: Seq<Seq<u8>>) -> Seq<u8>
    decreases frames.len(),
{
    if frames.len() == 0 {
        Seq::empty()
    } else {
        frames[0] + joined(frames.skip(1))
    }
}

/// The chunks that are read one after the other from `stream`, up to one that has not arrived
/// completely or cannot be unpacked to at most `max` bytes.
pub open spec fn chunks(stream: Seq<u8>, max: nat, bias: nat) -> Seq<Seq<u8>>
    decreases stream.len(),
{
    let len = packed_len(stream, bias);
    let frame = stream.take(len as int);
    if len > stream.len() || len > HEADER_LEN + max {
        Seq::empty()
    } else {
        match (unpacked(frame), unpacked_len(frame)) {
            (Some(chunk), Some(n)) => if n <= max {
                seq![chunk] + chunks(stream.skip(len as int), max, bias)
            } else {
                Seq::empty()
            },
            _ => Seq::empty(),
        }
    }
}

/// The chunks that are read from the first bytes of what was transmitted are the first chunks that
/// were sent, in order. A chunk that has not arrived completely is not read.
pub proof fn law_chunks_read_back(
    frames: Seq<Seq<u8>>,
    sent: Seq<Seq<u8>>,
    n: int,
    max: nat,
    bias: nat,
)
    requires
        frames.len() == sent.len(),
        forall|i: int|
            #![trigger frames[i]]
            0 <= i < frames.len() ==> transmits(frames[i], sent[i], bias) && sent[i].len() <= max,
        0 <= n <= joined(frames).len(),
    ensures
        chunks(joined(frames).take(n), max, bias).is_prefix_of(sent),
    decreases frames.len(),
{
    let stream = joined(frames).take(n);
    if frames.len() == 0 {
        assert(chunks(stream, max, bias) =~= Seq::<Seq<u8>>::empty());
    } else {
        let first = frames[0];
        let rest = frames.skip(1);
        assert(transmits(first, sent[0], bias));
        if n >= HEADER_LEN {
            assert(decode_u16(stream.skip(1)) == decode_u16(first.skip(1)));
        }
        if n < first.len() {
            assert(chunks(stream, max, bias) =~= Seq::<Seq<u8>>::empty());
        } else {
            let m = n - first.len();
            assert(stream.take(first.len() as int) =~= first);
            assert(stream.skip(first.len() as int) =~= joined(rest).take(m));
            assert forall|i: int|
                #![trigger rest[i]]
                0 <= i < rest.len() implies transmits(rest[i], sent.skip(1)[i], bias)
                && sent.skip(1)[i].len() <= max by {
                assert(rest[i] == frames[i + 1]);
            }
            law_chunks_read_back(rest, sent.skip(1), m, max, bias);
            assert(seq![sent[0]] + sent.skip(1) =~= sent);
        }
    }
}

/// Messages arrive in order and none is skipped: as long as what was written to one channel is the
/// beginning of what is transmitted for some chunks, the chunks in what was read from the other one
/// are the first of them, whatever became of the packets on the way.
pub proof fn law_chunks_in_order<I>(
    flow: Flow<I>,
    frames: Seq<Seq<u8>>,
    sent: Seq<Seq<u8>>,
    max: nat,
    bias: nat,
)
    requires
        flow.valid(),
        frames.len() == sent.len(),
        forall|i: int|
            #![trigger frames[i]]
            0 <= i < frames.len() ==> transmits(frames[i], sent[i], bias) && sent[i].len() <= max,
        flow.written.is_prefix_of(joined(frames)),
    ensures
        chunks(flow.delivered, max, bias).is_prefix_of(sent),
{
    let n = flow.delivered.len() as int;
    assert(flow.delivered =~= joined(frames).take(n));
    law_chunks_read_back(frames, sent, n, max, bias);
}

/// Reads chunks from a reliable channel and hands out the messages in them.
pub struct ChunkReceiver {
    max_chunk_len: usize,
    bias: u16,
    decoder: Decoder,
    read_buffer: ReadBuffer,
    recv_chunk: Vec<u8>,
    recv_pos: usize,
}

impl ChunkReceiver {
    pub closed spec fn max_chunk_len(&self) -> nat {
        self.max_chunk_len as nat
    }

    pub closed spec fn bias(&self) -> nat {
        self.bias as nat
    }

    /// The bytes of the current chunk that have been read from the channel.
    pub closed spec fn incoming(&self) -> Seq<u8> {
        self.read_buffer@
    }

    /// The bytes of the last chunk that have not been handed out yet.
    pub closed spec fn unread(&self) -> Seq<u8> {
        self.recv_chunk@.skip(self.recv_pos as int)
    }

    /// Whether a whole chunk has been read from the channel.
    pub open spec fn has_frame(&self) -> bool {
        &&& self.incoming().len() >= HEADER_LEN
        &&& self.incoming().len() == packed_len(self.incoming(), self.bias())
        &&& self.incoming().len() <= HEADER_LEN + self.max_chunk_len()
    }

    pub closed spec fn wf(&self) -> bool {
        &&& self.bias <= 1
        &&& self.max_chunk_len <= u16::MAX + self.bias
        &&& self.read_buffer.wf()
        &&& self.recv_pos <= self.recv_chunk@.len()
        &&& self.incoming().len() > HEADER_LEN ==> {
            &&& self.incoming().len() <= packed_len(self.incoming(), self.bias())
            &&& packed_len(self.incoming(), self.bias()) <= HEADER_LEN + self.max_chunk_len()
        }
    }

    /// The state of the bytes and the channel that they are read from.
    pub open spec fn side<P: PacketPool, I: Copy>(&self, channel: ReliableChannel<P, I>) -> RecvSide {
        RecvSide {
            window: channel.shared.recv_window@,
            status: channel.status,
            incoming: self.incoming(),
        }
    }

    pub fn new(max_chunk_len: usize, bias: u16) -> (result: Self)
        requires
            bias <= 1,
            max_chunk_len <= u16::MAX + bias,
        ensures
            result.wf(),
            result.max_chunk_len() == max_chunk_len,
            result.bias() == bias,
            result.incoming() == Seq::<u8>::empty(),
            result.unread() == Seq::<u8>::empty(),
    {
        let result = ChunkReceiver {
            max_chunk_len,
            bias,
            decoder: Decoder::new(),
            read_buffer: ReadBuffer::new(),
            recv_chunk: Vec::new(),
            recv_pos: 0,
        };
        assert(result.unread() =~= Seq::<u8>::empty());
        result
    }

    /// Whether bytes of the last chunk have not been handed out yet.
    pub fn has_unread(&self) -> (result: bool)
        requires
            self.wf(),
        ensures
            result == (self.unread().len() > 0),
    {
        self.recv_pos < self.recv_chunk.len()
    }

    /// The bytes of the last chunk that have not been handed out yet.
    pub fn peek(&self) -> (bytes: &[u8])
        requires
            self.wf(),
        ensures
            bytes@ == self.unread(),
    {
        vstd::slice::slice_subrange(self.recv_chunk.as_slice(), self.recv_pos, self.recv_chunk.len())
    }

    /// Takes note that the next message was that long.
    pub fn consume(&mut self, len: usize)
        requires
            old(self).wf(),
            len <= old(self).unread().len(),
        ensures
            final(self).wf(),
            final(self).max_chunk_len() == old(self).max_chunk_len(),
            final(self).bias() == old(self).bias(),
            final(self).incoming() == old(self).incoming(),
            final(self).unread() == old(self).unread().skip(len as int),
    {
        assert(self.unread().len() == self.recv_chunk.len() - self.recv_pos);
        self.recv_pos = self.recv_pos + len;
        assert(self.unread() =~= old(self).unread().skip(len as int));
    }

    /// Reads from the channel until a whole chunk has been read. Returns whether it has.
    pub fn fill_frame<P: PacketPool, I: Copy>(&mut self, channel: &mut ReliableChannel<P, I>) -> (result:
        Result<bool, FrameError>)
        requires
            old(self).wf(),
            old(channel).wf(),
        ensures
            final(self).wf(),
            final(self).max_chunk_len() == old(self).max_chunk_len(),
            final(self).bias() == old(self).bias(),
            final(self).unread() == old(self).unread(),
            final(channel).wf(),
            final(channel).task == old(channel).task,
            final(channel).shared.send_window == old(channel).shared.send_window,
            ({
                let side = old(self).side(*old(channel));
                let max = old(self).max_chunk_len();
                &&& result == side.frame_result(max, old(self).bias())
                &&& final(self).side(*final(channel)) == side.after_frame(max, old(self).bias())
            }),
            result == Ok::<bool, FrameError>(true) ==> final(self).has_frame(),
    {
        let ghost side = self.side(*channel);
        proof {
            law_fill_in_steps(side, HEADER_LEN as nat, packed_len(side.arrived(), self.bias()));
            law_fill_keeps_arrived(side, HEADER_LEN as nat);
            law_fill_keeps_arrived(side, packed_len(side.arrived(), self.bias()));
        }
        match self.read_buffer.fill(channel, HEADER_LEN) {
            Err(error) => {
                return Err(FrameError::ReliableChannelError(error));
            },
            Ok(false) => {
                return Ok(false);
            },
            Ok(true) => {},
        }
        let len: usize = read_len(self.read_buffer.as_slice(), self.bias);
        assert(HEADER_LEN + len == packed_len(side.arrived(), self.bias()));
        if len > self.max_chunk_len {
            return Err(FrameError::TooLarge);
        }
        let end: usize = HEADER_LEN + len;
        let result = self.read_buffer.fill(channel, end);
        match result {
            Err(error) => Err(FrameError::ReliableChannelError(error)),
            Ok(done) => Ok(done),
        }
    }

    /// The length of the chunk that has been read, as its header has it.
    pub fn frame_unpacked_len(&self) -> (result: Result<usize, String>)
        requires
            self.wf(),
            self.has_frame(),
        ensures
            match unpacked_len(self.incoming()) {
                Some(len) => result == Ok::<usize, String>(len as usize),
                None => result is Err,
            },
    {
        let frame = self.read_buffer.as_slice();
        let payload = vstd::slice::slice_subrange(frame, HEADER_LEN, frame.len());
        assert(payload@ =~= self.incoming().skip(HEADER_LEN as int));
        if frame[0] != 0 {
            read_decompressed_len(payload)
        } else {
            Ok(payload.len())
        }
    }

    /// Unpacks the chunk that has been read, which must take no more than the maximum length. The
    /// next chunk can then be read.
    pub fn unpack(&mut self) -> (result: Result<(), String>)
        requires
            old(self).wf(),
            old(self).has_frame(),
        ensures
            final(self).wf(),
            final(self).max_chunk_len() == old(self).max_chunk_len(),
            final(self).bias() == old(self).bias(),
            result is Ok <==> {
                &&& unpacked(old(self).incoming()) is Some
                &&& unpacked_len(old(self).incoming()) matches Some(len) && len
                    <= old(self).max_chunk_len()
            },
            result is Ok ==> {
                &&& unpacked(old(self).incoming()) == Some(final(self).unread())
                &&& unpacked_len(old(self).incoming()) == Some(final(self).unread().len())
                &&& final(self).incoming() == Seq::<u8>::empty()
            },
            result is Err ==> {
                &&& final(self).unread() == old(self).unread()
                &&& final(self).incoming() == old(self).incoming()
            },
    {
        let frame = self.read_buffer.as_slice();
        let payload = vstd::slice::slice_subrange(frame, HEADER_LEN, frame.len());
        assert(payload@ =~= self.incoming().skip(HEADER_LEN as int));
        let mut chunk: Vec<u8> = Vec::new();
        if frame[0] != 0 {
            let len: usize = match read_decompressed_len(payload) {
                Ok(len) => len,
                Err(error) => {
                    return Err(error);
                },
            };
            chunk.resize(
                if len < self.max_chunk_len {
                    len
                } else {
                    self.max_chunk_len
                },
                0,
            );
            match decompress(&mut self.decoder, payload, chunk.as_mut_slice()) {
                Ok(len) => {
                    assert(chunk@.take(len as int) =~= chunk@);
                },
                Err(error) => {
                    return Err(error);
                },
            }
        } else {
            chunk.extend_from_slice(payload);
            assert(chunk@ =~= payload@);
        }
        self.recv_chunk = chunk;
        self.recv_pos = 0;
        self.read_buffer.clear();
        assert(self.unread() =~= chunk@);
        Ok(())
    }

    /// The state of the messages and the channel that they are received from.
    pub open spec fn recv_side<P: PacketPool, I: Copy>(
        &self,
        channel: ReliableChannel<P, I>,
    ) -> ChunkRecvSide {
        ChunkRecvSide { unread: self.unread(), side: self.side(channel) }
    }

    /// Reads from the channel until there is a message. Returns whether there is one.
    ///
    /// A chunk that is longer than allowed after decompression is too large if `strict`, and a
    /// decompression error otherwise.
    pub fn recv_ready<P: PacketPool, I: Copy>(
        &mut self,
        channel: &mut ReliableChannel<P, I>,
        strict: bool,
    ) -> (result: Result<bool, ChunkError>)
        requires
            old(self).wf(),
            old(channel).wf(),
        ensures
            final(self).wf(),
            final(self).max_chunk_len() == old(self).max_chunk_len(),
            final(self).bias() == old(self).bias(),
            final(channel).wf(),
            final(channel).task == old(channel).task,
            final(channel).shared.send_window == old(channel).shared.send_window,
            ({
                let (outcome, after) = receiving(
                    old(self).recv_side(*old(channel)),
                    old(self).max_chunk_len(),
                    old(self).bias(),
                    strict,
                );
                &&& outcome.is_told_by(result)
                &&& final(self).recv_side(*final(channel)) == after
            }),
    {
        let ghost max = self.max_chunk_len();
        let ghost bias = self.bias();
        let ghost expected = receiving(self.recv_side(*channel), max, bias, strict);
        while !self.has_unread()
            invariant
                self.wf(),
                self.max_chunk_len() == max == old(self).max_chunk_len(),
                self.bias() == bias == old(self).bias(),
                channel.wf(),
                channel.task == old(channel).task,
                channel.shared.send_window == old(channel).shared.send_window,
                expected == receiving(self.recv_side(*channel), max, bias, strict),
                expected == receiving(old(self).recv_side(*old(channel)), max, bias, strict),
            decreases self.side(*channel).arrived().len(),
        {
            let ghost before = self.recv_side(*channel);
            match self.fill_frame(channel) {
                Err(FrameError::ReliableChannelError(error)) => {
                    return Err(ChunkError::ReliableChannelError(error));
                },
                Err(FrameError::TooLarge) => {
                    return Err(ChunkError::TooLarge);
                },
                Ok(false) => {
                    return Ok(false);
                },
                Ok(true) => {},
            }
            let ghost filled = self.side(*channel);
            proof {
                law_fill_keeps_arrived(before.side, before.side.frame_wanted(max, bias));
            }
            match self.frame_unpacked_len() {
                Err(error) => {
                    return Err(ChunkError::SnapError(error));
                },
                Ok(len) => {
                    if strict && len > self.max_chunk_len {
                        return Err(ChunkError::TooLarge);
                    }
                },
            }
            match self.unpack() {
                Err(error) => {
                    return Err(ChunkError::SnapError(error));
                },
                Ok(()) => {},
            }
            assert(self.side(*channel) =~= RecvSide { incoming: Seq::empty(), ..filled });
        }
        Ok(true)
    }
}

} // verus!
