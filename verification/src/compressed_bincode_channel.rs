//! Serialized and compressed messages over a reliable channel.
//!
//! The channel carries messages that were serialized with `bincode`, and leaves the serialization
//! itself to its user. Each call is handed the reliable channel, which the user shares with the
//! driver of that channel.

use vstd::prelude::*;

use crate::chunk::{
    receiving, unpacked, unpacked_len, ChunkError, ChunkReceiver, ChunkRecvSide, ChunkSendSide,
    ChunkSender, Outcome,
};
use crate::packet::PacketPool;
use crate::reliable_channel::{self, ReliableChannel};
use crate::stream_buffer::{law_fill_keeps_arrived, RecvSide};

verus! {

/// The maximum serialized length of a `CompressedBincodeChannel` message. This also serves as
/// the maximum size of a compressed chunk of messages, but it is guaranteed that any message <=
/// `MAX_MESSAGE_LEN` can be sent, even if it cannot be compressed.
pub const MAX_MESSAGE_LEN: u16 = 65535;

#[derive(Debug, Clone, Copy, PartialEq, Eq, Structural)]
pub enum SendError {
    /// Fatal internal channel error.
    ReliableChannelError(reliable_channel::Error),
    /// Non-fatal error, message is unsent because it serializes to more than the maximum message
    /// length.
    SizeLimit,
}

#[derive(Debug, PartialEq, Eq)]
pub enum RecvError {
    /// Fatal internal channel error.
    ReliableChannelError(reliable_channel::Error),
    /// Fatal error, indicates corruption or protocol mismatch.
    SnapError(String),
}

/// Wraps a `ReliableChannel` and reliably sends messages serialized with `bincode` and compressed
/// with `snap`.
///
/// Messages are written in large blocks to aid compression. Messages are serialized end to end, and
/// when a block reaches the maximum configured size (or `flush` is called), the block is compressed
/// and sent as a single message.
///
/// This saves space from the compression and also from the reduced message header overhead per
/// individual message.
pub struct CompressedBincodeChannel {
    sender: ChunkSender,
    receiver: ChunkReceiver,
}

impl CompressedBincodeChannel {
    pub closed spec fn sender(&self) -> ChunkSender {
        self.sender
    }

    pub closed spec fn receiver(&self) -> ChunkReceiver {
        self.receiver
    }

    /// The sending side of the channel.
    pub open spec fn send_side<P: PacketPool, I: Copy>(
        &self,
        channel: ReliableChannel<P, I>,
    ) -> ChunkSendSide {
        self.sender().side(channel)
    }

    /// The receiving side of the channel.
    pub open spec fn recv_side<P: PacketPool, I: Copy>(
        &self,
        channel: ReliableChannel<P, I>,
    ) -> ChunkRecvSide {
        self.receiver().recv_side(channel)
    }

    pub closed spec fn wf(&self) -> bool {
        &&& self.sender.wf()
        &&& self.sender.max_chunk_len() == MAX_MESSAGE_LEN
        &&& self.sender.bias() == 0
        &&& self.receiver.wf()
        &&& self.receiver.max_chunk_len() == MAX_MESSAGE_LEN
        &&& self.receiver.bias() == 0
    }

    pub fn new() -> (result: Self)
        ensures
            result.wf(),
            result.sender().queued() == Seq::<u8>::empty(),
            result.sender().outgoing() == Seq::<u8>::empty(),
            result.receiver().incoming() == Seq::<u8>::empty(),
            result.receiver().unread() == Seq::<u8>::empty(),
    {
        CompressedBincodeChannel {
            sender: ChunkSender::new(MAX_MESSAGE_LEN as usize, 0),
            receiver: ChunkReceiver::new(MAX_MESSAGE_LEN as usize, 0),
        }
    }

    /// Send the given serialized message.
    ///
    /// Returns `false` if the channel has no room. A message is never sent partially.
    pub fn send<P: PacketPool, I: Copy>(
        &mut self,
        channel: &mut ReliableChannel<P, I>,
        msg: &[u8],
    ) -> (result: Result<bool, SendError>)
        requires
            old(self).wf(),
            old(channel).wf(),
        ensures
            final(self).wf(),
            final(self).receiver() == old(self).receiver(),
            final(channel).wf(),
            final(channel).task == old(channel).task,
            final(channel).shared.recv_window == old(channel).shared.recv_window,
            result == Err::<bool, SendError>(SendError::SizeLimit) <==> msg@.len() > 65535,
            old(self).sender().queued().len() + msg@.len() <= 65535 ==> {
                &&& result == Ok::<bool, SendError>(true)
                &&& *final(channel) == *old(channel)
                &&& final(self).sender().queued() == old(self).sender().queued() + msg@
                &&& final(self).sender().outgoing() == old(self).sender().outgoing()
            },
            msg@.len() > MAX_MESSAGE_LEN ==> {
                &&& result == Err::<bool, SendError>(SendError::SizeLimit)
                &&& *final(self) == *old(self)
                &&& *final(channel) == *old(channel)
            },
            msg@.len() <= MAX_MESSAGE_LEN ==> {
                let side = old(self).send_side(*old(channel));
                &&& result == (match side.send_result(msg@.len(), MAX_MESSAGE_LEN as nat) {
                    Ok(done) => Ok(done),
                    Err(error) => Err(SendError::ReliableChannelError(error)),
                })
                &&& final(self).send_side(*final(channel)) == side.after_send(
                    msg@,
                    MAX_MESSAGE_LEN as nat,
                    0,
                )
                &&& side.queued.len() + msg@.len() > MAX_MESSAGE_LEN ==> side.packs_faithfully(0)
            },
    {
        if msg.len() > MAX_MESSAGE_LEN as usize {
            return Err(SendError::SizeLimit);
        }
        match self.sender.send(channel, msg) {
            Ok(done) => Ok(done),
            Err(error) => Err(SendError::ReliableChannelError(error)),
        }
    }

    /// Finish sending the current block of messages, compressing them and sending them over the
    /// reliable channel.
    ///
    /// Returns `false` if the channel has no room.
    pub fn flush<P: PacketPool, I: Copy>(&mut self, channel: &mut ReliableChannel<P, I>) -> (result:
        Result<bool, reliable_channel::Error>)
        requires
            old(self).wf(),
            old(channel).wf(),
        ensures
            final(self).wf(),
            final(self).receiver() == old(self).receiver(),
            final(channel).wf(),
            final(channel).task == old(channel).task,
            final(channel).shared.recv_window == old(channel).shared.recv_window,
            result == old(self).send_side(*old(channel)).flush_result(0),
            final(self).send_side(*final(channel)) == old(self).send_side(
                *old(channel),
            ).after_flush(0),
            old(self).send_side(*old(channel)).packs_faithfully(0),
    {
        self.sender.flush(channel)
    }

    /// Reads from the channel until there is a message. Returns whether there is one.
    pub fn poll_recv_ready<P: PacketPool, I: Copy>(
        &mut self,
        channel: &mut ReliableChannel<P, I>,
    ) -> (result: Result<bool, RecvError>)
        requires
            old(self).wf(),
            old(channel).wf(),
        ensures
            final(self).wf(),
            final(self).sender() == old(self).sender(),
            final(channel).wf(),
            final(channel).task == old(channel).task,
            final(channel).shared.send_window == old(channel).shared.send_window,
            ({
                let (outcome, after) = receiving(
                    old(self).recv_side(*old(channel)),
                    MAX_MESSAGE_LEN as nat,
                    0,
                    false,
                );
                &&& final(self).recv_side(*final(channel)) == after
                &&& match outcome {
                    Outcome::Ready => result == Ok::<bool, RecvError>(true),
                    Outcome::Pending => result == Ok::<bool, RecvError>(false),
                    Outcome::Failed(error) => result == Err::<bool, RecvError>(
                        RecvError::ReliableChannelError(error),
                    ),
                    Outcome::TooLarge => false,
                    Outcome::Corrupt => result matches Err(RecvError::SnapError(_)),
                }
            }),
    {
        proof {
            lemma_never_too_large(self.recv_side(*channel));
        }
        match self.receiver.recv_ready(channel, false) {
            Ok(done) => Ok(done),
            Err(ChunkError::ReliableChannelError(error)) => Err(
                RecvError::ReliableChannelError(error),
            ),
            Err(ChunkError::SnapError(error)) => Err(RecvError::SnapError(error)),
            Err(ChunkError::TooLarge) => Ok(false),
        }
    }

    /// The received messages that have not been taken yet. The first one of them can be
    /// deserialized once [`CompressedBincodeChannel::poll_recv_ready`] has found it.
    pub fn peek(&self) -> (bytes: &[u8])
        requires
            self.wf(),
        ensures
            bytes@ == self.receiver().unread(),
    {
        self.receiver.peek()
    }

    /// Takes the next message, which was that long. If it could not be deserialized nothing is taken.
    pub fn recv_next(&mut self, len: usize)
        requires
            old(self).wf(),
            len <= old(self).receiver().unread().len(),
        ensures
            final(self).wf(),
            final(self).sender() == old(self).sender(),
            final(self).receiver().incoming() == old(self).receiver().incoming(),
            final(self).receiver().unread() == old(self).receiver().unread().skip(len as int),
    {
        self.receiver.consume(len)
    }
}

/// The maximum message length is the largest that two bytes can tell, so that a chunk of that length can be
/// transmitted as it is.
pub proof fn law_length_fits_two_bytes(len: nat)
    ensures
        len <= MAX_MESSAGE_LEN <==> len < 256 * 256,
{
}

/// A chunk whose length is transmitted in two bytes is never too large.
proof fn lemma_never_too_large(before: ChunkRecvSide)
    ensures
        receiving(before, MAX_MESSAGE_LEN as nat, 0, false).0 != Outcome::TooLarge,
    decreases before.side.arrived().len(),
{
    let max = MAX_MESSAGE_LEN as nat;
    let side = before.side.after_frame(max, 0);
    if before.unread.len() == 0 && before.side.frame_result(max, 0) matches Ok(true) {
        law_fill_keeps_arrived(before.side, before.side.frame_wanted(max, 0));
        if let (Some(chunk), Some(len)) = (unpacked(side.incoming), unpacked_len(side.incoming)) {
            if len <= max {
                let next = ChunkRecvSide {
                    unread: chunk,
                    side: RecvSide { incoming: Seq::empty(), ..side },
                };
                lemma_never_too_large(next);
            }
        }
    }
}

} // verus!
