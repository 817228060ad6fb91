//! Serialized messages over a reliable channel.
//!
//! The channel carries messages that were serialized with `bincode`, and leaves the serialization
//! itself to its user. Each call is handed the reliable channel, which the user shares with the
//! driver of that channel.

use vstd::prelude::*;

use crate::codec::{decode_u16, encode_u16, law_decode_encode_u16, read_u16, write_u16};
use crate::framing::{
    coalesced, first_message, framed, law_prefix_read_back, messages, SizeLimit, PREFIX_LEN,
};
use crate::packet::{copy_to, PacketPool};
use crate::reliable_channel::reliability::Flow;
use crate::reliable_channel::{self, ReliableChannel, Status};
use crate::stream_buffer::{
    law_drain_fills_channel, law_drain_keeps_stream, law_fill_in_steps, law_fill_keeps_arrived,
    ReadBuffer, RecvSide, SendSide, WriteBuffer,
};

verus! {

#[derive(Debug, Clone, Copy, PartialEq, Eq, Structural)]
pub enum SendError {
    /// Fatal internal channel error.
    ReliableChannelError(reliable_channel::Error),
    /// Non-fatal error, message is unsent because it serializes to more than the maximum message
    /// length.
    SizeLimit,
}

#[derive(Debug, Clone, Copy, PartialEq, Eq, Structural)]
pub enum RecvError {
    /// Fatal internal channel error.
    ReliableChannelError(reliable_channel::Error),
    /// Fatal error, reading the next message would exceed the maximum buffer length, no progress
    /// can be made.
    PrefixTooLarge,
}

impl SendSide {
    /// What an attempt to send a message of `len` bytes returns: whether it is sent, where no message may
    /// be longer than `max`.
    pub open spec fn message_sent(self, len: nat, max: u16) -> Result<bool, SendError> {
        match self.drain_result() {
            Err(error) => Err(SendError::ReliableChannelError(error)),
            Ok(false) => Ok(false),
            Ok(true) => if len <= max {
                Ok(true)
            } else {
                Err(SendError::SizeLimit)
            },
        }
    }

    /// The state after an attempt to send a message.
    pub open spec fn after_message(self, msg: Seq<u8>, max: u16) -> SendSide {
        if self.message_sent(msg.len(), max) == Ok::<bool, SendError>(true) {
            SendSide { outgoing: framed(msg), ..self.drained() }
        } else {
            self.drained()
        }
    }
}

impl RecvSide {
    /// Whether a message is announced that is longer than `max`.
    pub open spec fn prefix_too_large(self, max: u16) -> bool {
        &&& self.arrived().len() >= PREFIX_LEN
        &&& decode_u16(self.arrived()) > max
    }

    /// How many bytes of the current message are wanted.
    pub open spec fn wanted(self, max: u16) -> nat {
        if self.arrived().len() < PREFIX_LEN || self.prefix_too_large(max) {
            PREFIX_LEN as nat
        } else {
            (PREFIX_LEN + decode_u16(self.arrived())) as nat
        }
    }

    /// What an attempt to have a whole message returns: whether it is there.
    pub open spec fn message_result(self, max: u16) -> Result<bool, RecvError> {
        match self.fill_result(self.wanted(max)) {
            Err(error) => Err(RecvError::ReliableChannelError(error)),
            Ok(done) => if done && self.prefix_too_large(max) {
                Err(RecvError::PrefixTooLarge)
            } else {
                Ok(done)
            },
        }
    }
}

/// Wraps a `ReliableChannel` together with an internal buffer to allow easily sending message types
/// serialized with `bincode`.
///
/// Messages are guaranteed to arrive, and are guaranteed to be in order. Messages have a maximum
/// length, but this maximum size can be larger than the size of an individual packet.
pub struct ReliableBincodeChannel {
    max_message_len: u16,
    write_buffer: WriteBuffer,
    read_buffer: ReadBuffer,
}

impl ReliableBincodeChannel {
    pub closed spec fn max_message_len(&self) -> u16 {
        self.max_message_len
    }

    /// The bytes that have not been written to the channel yet.
    pub closed spec fn outgoing(&self) -> Seq<u8> {
        self.write_buffer@
    }

    /// The bytes of the current message that have been read from the channel.
    pub closed spec fn incoming(&self) -> Seq<u8> {
        self.read_buffer@
    }

    /// The sending side of the channel.
    pub open spec fn send_side<P: PacketPool, I: Copy>(
        &self,
        channel: ReliableChannel<P, I>,
    ) -> SendSide {
        SendSide {
            window: channel.shared.send_window@,
            status: channel.status,
            outgoing: self.outgoing(),
        }
    }

    /// The receiving side of the channel.
    pub open spec fn recv_side<P: PacketPool, I: Copy>(
        &self,
        channel: ReliableChannel<P, I>,
    ) -> RecvSide {
        RecvSide {
            window: channel.shared.recv_window@,
            status: channel.status,
            incoming: self.incoming(),
        }
    }

    /// Whether a whole message has been read.
    pub open spec fn has_message(&self) -> bool {
        &&& self.incoming().len() >= PREFIX_LEN
        &&& self.incoming().len() == PREFIX_LEN + decode_u16(self.incoming())
        &&& decode_u16(self.incoming()) <= self.max_message_len()
    }

    pub closed spec fn wf(&self) -> bool {
        &&& self.write_buffer.wf()
        &&& self.read_buffer.wf()
        &&& self.incoming().len() > PREFIX_LEN ==> {
            &&& decode_u16(self.incoming()) <= self.max_message_len()
            &&& self.incoming().len() <= PREFIX_LEN + decode_u16(self.incoming())
        }
    }

    /// Create a new `ReliableBincodeChannel` with a maximum message size of `max_message_len`.
    pub fn new(max_message_len: u16) -> (result: Self)
        ensures
            result.wf(),
            result.max_message_len() == max_message_len,
            result.outgoing() == Seq::<u8>::empty(),
            result.incoming() == Seq::<u8>::empty(),
    {
        ReliableBincodeChannel {
            max_message_len,
            write_buffer: WriteBuffer::new(),
            read_buffer: ReadBuffer::new(),
        }
    }

    /// Writes what is left of the last message, so that the next one can be sent.
    ///
    /// Returns `false` if the channel has no room for it.
    pub fn poll_send_ready<P: PacketPool, I: Copy>(
        &mut self,
        channel: &mut ReliableChannel<P, I>,
    ) -> (result: Result<bool, reliable_channel::Error>)
        requires
            old(self).wf(),
            old(channel).wf(),
        ensures
            final(self).wf(),
            final(self).max_message_len() == old(self).max_message_len(),
            final(self).incoming() == old(self).incoming(),
            final(channel).wf(),
            final(channel).task == old(channel).task,
            final(channel).shared.recv_window == old(channel).shared.recv_window,
            result == old(self).send_side(*old(channel)).drain_result(),
            final(self).send_side(*final(channel)) == old(self).send_side(*old(channel)).drained(),
    {
        self.write_buffer.drain(channel)
    }

    /// Takes a serialized message to be written to the channel. The channel must have been made
    /// ready by [`ReliableBincodeChannel::poll_send_ready`].
    pub fn start_send(&mut self, msg: &[u8]) -> (result: Result<(), SizeLimit>)
        requires
            old(self).wf(),
            old(self).outgoing().len() == 0,
        ensures
            final(self).wf(),
            final(self).max_message_len() == old(self).max_message_len(),
            final(self).incoming() == old(self).incoming(),
            result == (if msg@.len() <= old(self).max_message_len() {
                Ok::<(), SizeLimit>(())
            } else {
                Err::<(), SizeLimit>(SizeLimit)
            }),
            final(self).outgoing() == (if result is Ok {
                framed(msg@)
            } else {
                old(self).outgoing()
            }),
    {
        if msg.len() > self.max_message_len as usize {
            return Err(SizeLimit);
        }
        let mut buffer: Vec<u8> = vec![0;PREFIX_LEN + msg.len()];
        write_u16(buffer.as_mut_slice(), msg.len() as u16);
        copy_to(buffer.as_mut_slice(), PREFIX_LEN, msg);
        assert(buffer@ =~= framed(msg@));
        self.write_buffer.set(buffer);
        Ok(())
    }

    /// Write the given serialized message to the reliable channel.
    ///
    /// In order to ensure that messages are sent in a timely manner, `flush` must be called after
    /// calling this method. Without calling `flush`, any pending writes will not be sent until the
    /// next automatic sender task wakeup.
    ///
    /// Returns `false` if the channel has no room. A message is never sent partially.
    pub fn send<P: PacketPool, I: Copy>(
        &mut self,
        channel: &mut ReliableChannel<P, I>,
        msg: &[u8],
    ) -> (result: Result<bool, SendError>)
        requires
            old(self).wf(),
            old(channel).wf(),
        ensures
            final(self).wf(),
            final(self).max_message_len() == old(self).max_message_len(),
            final(self).incoming() == old(self).incoming(),
            final(channel).wf(),
            final(channel).task == old(channel).task,
            final(channel).shared.recv_window == old(channel).shared.recv_window,
            ({
                let side = old(self).send_side(*old(channel));
                &&& result == (match side.drain_result() {
                    Err(error) => Err(SendError::ReliableChannelError(error)),
                    Ok(false) => Ok(false),
                    Ok(true) => if msg@.len() <= old(self).max_message_len() {
                        Ok(true)
                    } else {
                        Err(SendError::SizeLimit)
                    },
                })
                &&& final(self).send_side(*final(channel)) == (if result == Ok::<bool, SendError>(
                    true,
                ) {
                    SendSide { outgoing: framed(msg@), ..side.drained() }
                } else {
                    side.drained()
                })
                &&& result == side.message_sent(msg@.len(), old(self).max_message_len())
                &&& final(self).send_side(*final(channel)) == side.after_message(
                    msg@,
                    old(self).max_message_len(),
                )
            }),
            result == Err::<bool, SendError>(SendError::SizeLimit) ==> msg@.len() > old(
                self,
            ).max_message_len(),
            result == Ok::<bool, SendError>(true) ==> {
                &&& msg@.len() <= old(self).max_message_len()
                &&& final(self).outgoing() == framed(msg@)
            },
            result == Ok::<bool, SendError>(false) ==> final(self).outgoing().len() > 0,
    {
        proof {
            channel.shared.send_window.lemma_valid();
            law_message_waits_for_room(
                self.send_side(*channel),
                msg@,
                self.max_message_len(),
            );
        }
        match self.poll_send_ready(channel) {
            Err(error) => Err(SendError::ReliableChannelError(error)),
            Ok(false) => Ok(false),
            Ok(true) => match self.start_send(msg) {
                Ok(()) => Ok(true),
                Err(_) => Err(SendError::SizeLimit),
            },
        }
    }

    /// Ensure that any previously sent messages are sent as soon as possible.
    ///
    /// Returns `false` if the channel has no room for them.
    pub fn flush<P: PacketPool, I: Copy>(&mut self, channel: &mut ReliableChannel<P, I>) -> (result:
        Result<bool, reliable_channel::Error>)
        requires
            old(self).wf(),
            old(channel).wf(),
        ensures
            final(self).wf(),
            final(self).max_message_len() == old(self).max_message_len(),
            final(self).incoming() == old(self).incoming(),
            final(channel).wf(),
            final(channel).task == old(channel).task,
            final(channel).shared.recv_window == old(channel).shared.recv_window,
            result == old(self).send_side(*old(channel)).flush_result(),
            final(self).send_side(*final(channel)) == old(self).send_side(*old(channel)).drained(),
    {
        match self.poll_send_ready(channel) {
            Err(error) => Err(error),
            Ok(false) => Ok(false),
            Ok(true) => match channel.flush() {
                Ok(()) => Ok(true),
                Err(error) => Err(error),
            },
        }
    }

    /// Reads from the channel until a whole message has been read. Returns whether it has.
    #[verifier::rlimit(40)]
    pub fn poll_recv_ready<P: PacketPool, I: Copy>(
        &mut self,
        channel: &mut ReliableChannel<P, I>,
    ) -> (result: Result<bool, RecvError>)
        requires
            old(self).wf(),
            old(channel).wf(),
        ensures
            final(self).wf(),
            final(self).max_message_len() == old(self).max_message_len(),
            final(self).outgoing() == old(self).outgoing(),
            final(channel).wf(),
            final(channel).task == old(channel).task,
            final(channel).shared.send_window == old(channel).shared.send_window,
            ({
                let max = old(self).max_message_len();
                let side = old(self).recv_side(*old(channel));
                &&& result == side.message_result(max)
                &&& final(self).recv_side(*final(channel)) == side.filled(side.wanted(max))
            }),
            result == Ok::<bool, RecvError>(true) ==> final(self).has_message(),
    {
        let ghost side = self.recv_side(*channel);
        proof {
            law_fill_in_steps(side, PREFIX_LEN as nat, side.wanted(self.max_message_len));
            law_fill_keeps_arrived(side, PREFIX_LEN as nat);
            law_fill_keeps_arrived(side, side.wanted(self.max_message_len));
        }
        match self.read_buffer.fill(channel, PREFIX_LEN) {
            Err(error) => {
                return Err(RecvError::ReliableChannelError(error));
            },
            Ok(false) => {
                return Ok(false);
            },
            Ok(true) => {},
        }
        let message_len: u16 = read_u16(self.read_buffer.as_slice());
        assert(message_len == decode_u16(side.arrived()));
        if message_len > self.max_message_len {
            return Err(RecvError::PrefixTooLarge);
        }
        let end: usize = PREFIX_LEN + message_len as usize;
        let result = self.read_buffer.fill(channel, end);
        match result {
            Err(error) => Err(RecvError::ReliableChannelError(error)),
            Ok(done) => Ok(done),
        }
    }

    /// The message that has been read, to be deserialized. The next message can then be read.
    pub fn recv_next(&mut self) -> (msg: Vec<u8>)
        requires
            old(self).wf(),
            old(self).has_message(),
        ensures
            final(self).wf(),
            final(self).max_message_len() == old(self).max_message_len(),
            final(self).outgoing() == old(self).outgoing(),
            final(self).incoming() == Seq::<u8>::empty(),
            first_message(old(self).incoming()) == Some(msg@),
            old(self).incoming() == framed(msg@),
    {
        let mut msg: Vec<u8> = Vec::new();
        let len: usize = self.read_buffer.len();
        msg.extend_from_slice(
            vstd::slice::slice_subrange(self.read_buffer.as_slice(), PREFIX_LEN, len),
        );
        self.read_buffer.clear();
        msg
    }
}

/// A message that was sent is received as soon as its last byte has arrived, and what was sent after
/// it stays in the channel.
pub proof fn law_message_arrives(side: RecvSide, max: u16, msg: Seq<u8>, rest: Seq<u8>)
    requires
        side.status == Status::Running,
        side.arrived() == framed(msg) + rest,
        side.incoming.len() <= framed(msg).len(),
        msg.len() <= max,
    ensures
        side.message_result(max) == Ok::<bool, RecvError>(true),
        side.filled(side.wanted(max)).incoming == framed(msg),
        side.filled(side.wanted(max)).window.ready == rest,
{
    let after = side.filled(side.wanted(max));
    law_decode_encode_u16(msg.len() as u16, msg + rest);
    assert(framed(msg) + rest =~= encode_u16(msg.len() as u16) + (msg + rest));
    assert(after.incoming =~= side.arrived().take(framed(msg).len() as int));
    assert(after.incoming =~= framed(msg));
    assert(after.window.ready =~= side.arrived().skip(framed(msg).len() as int));
    assert(after.window.ready =~= rest);
}

/// While the channel works, a message is sent exactly if all that was sent before it can be written and the
/// message is not longer than `max`. It is refused for its size only if it is longer. It has to wait only
/// if the channel is full, and then nothing of it is sent.
pub proof fn law_message_waits_for_room(side: SendSide, msg: Seq<u8>, max: u16)
    requires
        side.window.valid(),
    ensures
        ({
            let result = side.message_sent(msg.len(), max);
            let after = side.after_message(msg, max);
            let room = side.window.capacity - side.window.sent.len() - side.window.pending.len();
            &&& side.status is Running ==> {
                &&& result == Ok::<bool, SendError>(true) <==> side.outgoing.len() <= room
                    && msg.len() <= max
                &&& result == Err::<bool, SendError>(SendError::SizeLimit) <==> side.outgoing.len()
                    <= room && msg.len() > max
                &&& result == Ok::<bool, SendError>(false) <==> side.outgoing.len() > room
            }
            &&& result == Ok::<bool, SendError>(true) ==> {
                &&& after.outgoing == framed(msg)
                &&& after.window.pending == side.window.pending + side.outgoing
            }
            &&& result == Ok::<bool, SendError>(false) ==> {
                &&& after.outgoing.len() > 0
                &&& after.window.sent.len() + after.window.pending.len() == side.window.capacity
            }
            &&& result != Ok::<bool, SendError>(true) ==> after.window.pending + after.outgoing
                == side.window.pending + side.outgoing
        }),
{
    law_drain_keeps_stream(side);
    law_drain_fills_channel(side);
    assert(side.drained().outgoing.len() == 0 ==> side.drained().window.pending
        =~= side.window.pending + side.outgoing);
}

/// A message is refused exactly if the two bytes that announce it say that it is longer than `max`, and
/// nothing of it is read but these two bytes. All that comes otherwise is the error of a channel that has
/// failed.
pub proof fn law_long_message_refused(side: RecvSide, max: u16)
    requires
        side.incoming.len() <= 2,
    ensures
        side.message_result(max) == Err::<bool, RecvError>(RecvError::PrefixTooLarge) <==> {
            let arrived = side.incoming + side.window.ready;
            &&& arrived.len() >= 2
            &&& arrived[0] + 256 * arrived[1] > max
            &&& side.incoming.len() == 2 || side.status is Running
        },
        side.message_result(max) == Err::<bool, RecvError>(RecvError::PrefixTooLarge)
            ==> side.filled(side.wanted(max)).incoming.len() == 2,
        side.message_result(max) matches Err(RecvError::ReliableChannelError(_)) ==> side.status
            !is Running,
        side.status !is Running && side.incoming.len() < 2 ==> side.message_result(max) == Err::<
            bool,
            RecvError,
        >(RecvError::ReliableChannelError(
            match side.status {
                Status::Failed(met) => met,
                _ => reliable_channel::Error::Shutdown,
            },
        )),
{
}

/// Messages arrive in order and none is skipped: as long as what was written to one channel is the
/// beginning of some messages, the messages in what was read from the other one are the first of them,
/// whatever became of the packets on the way.
pub proof fn law_messages_in_order<I>(flow: Flow<I>, msgs: Seq<Seq<u8>>)
    requires
        flow.valid(),
        flow.written.is_prefix_of(coalesced(msgs)),
        forall|i: int| 0 <= i < msgs.len() ==> (#[trigger] msgs[i]).len() <= u16::MAX,
    ensures
        messages(flow.delivered).is_prefix_of(msgs),
{
    let n = flow.delivered.len() as int;
    assert(flow.delivered =~= coalesced(msgs).take(n));
    law_prefix_read_back(msgs, n);
}

/// A message of which bytes are missing is not received, and nothing of it is dropped.
pub proof fn law_partial_message_waits(side: RecvSide, max: u16, msg: Seq<u8>, n: int)
    requires
        side.status == Status::Running,
        0 <= n < framed(msg).len(),
        side.arrived() == framed(msg).take(n),
        msg.len() <= max,
    ensures
        side.message_result(max) == Ok::<bool, RecvError>(false),
        side.filled(side.wanted(max)).arrived() == side.arrived(),
{
    law_decode_encode_u16(msg.len() as u16, msg);
    if n >= PREFIX_LEN {
        assert(decode_u16(side.arrived()) == decode_u16(framed(msg)));
    }
    law_fill_keeps_arrived(side, side.wanted(max));
}

} // verus!
