//! Serialized and compressed messages of limited length over a reliable channel.
//!
//! The channel carries messages that were serialized with `bincode`, and leaves the serialization
//! itself to its user. Each call is handed the reliable channel, which the user shares with the
//! driver of that channel.

use vstd::prelude::*;

use crate::chunk::{
    receiving, ChunkError, ChunkReceiver, ChunkRecvSide, ChunkSendSide, ChunkSender, Outcome,
};
use crate::packet::PacketPool;
use crate::reliable_channel::{self, ReliableChannel};

verus! {

#[derive(Debug, PartialEq, Eq)]
pub enum Error {
    ReliableChannelError(reliable_channel::Error),
    /// Chunk has exceeded the configured max chunk length.
    ChunkTooLarge,
    /// Message is unsent because it serializes to more than the max chunk length.
    SizeLimit,
    /// Snappy serialization error.
    SnapError(String),
}

/// The maximum supported length for a message chunk sent over a `CompressedTypedChannel`.
pub const MAX_CHUNK_LEN: usize = 65536;

/// Wraps a `ReliableChannel` and reliably sends a single message type serialized with `bincode` and
/// compressed with `snap`.
///
/// Messages are written in large blocks to aid compression.  Messages are serialized end to end,
/// and when a block reaches the maximum configured size (or `flush` is called), the block is
/// compressed and sent as a single message.
///
/// This saves space from the compression and also from the reduced message header overhead per
/// individual message.
pub struct CompressedTypedChannel {
    sender: ChunkSender,
    receiver: ChunkReceiver,
    max_chunk_len: usize,
}

impl CompressedTypedChannel {
    pub closed spec fn max_chunk_len(&self) -> nat {
        self.max_chunk_len as nat
    }

    pub closed spec fn sender(&self) -> ChunkSender {
        self.sender
    }

    pub closed spec fn receiver(&self) -> ChunkReceiver {
        self.receiver
    }

    /// The sending side of the channel.
    pub open spec fn send_side<P: PacketPool, I: Copy>(
        &self,
        channel: ReliableChannel<P, I>,
    ) -> ChunkSendSide {
        self.sender().side(channel)
    }

    /// The receiving side of the channel.
    pub open spec fn recv_side<P: PacketPool, I: Copy>(
        &self,
        channel: ReliableChannel<P, I>,
    ) -> ChunkRecvSide {
        self.receiver().recv_side(channel)
    }

    pub closed spec fn wf(&self) -> bool {
        &&& self.sender.wf()
        &&& self.sender.max_chunk_len() == self.max_chunk_len
        &&& self.sender.bias() == 1
        &&& self.receiver.wf()
        &&& self.receiver.max_chunk_len() == self.max_chunk_len
        &&& self.receiver.bias() == 1
    }

    /// The `max_chunk_len` parameter describes the maximum buffer size of a combined message block
    /// before it is automatically sent.
    ///
    /// An individual message may be no more than `max_chunk_len` in length.
    pub fn new(max_chunk_len: usize) -> (result: Self)
        requires
            1 < max_chunk_len <= MAX_CHUNK_LEN,
        ensures
            result.wf(),
            result.max_chunk_len() == max_chunk_len,
            result.sender().queued() == Seq::<u8>::empty(),
            result.sender().outgoing() == Seq::<u8>::empty(),
            result.receiver().incoming() == Seq::<u8>::empty(),
            result.receiver().unread() == Seq::<u8>::empty(),
    {
        CompressedTypedChannel {
            sender: ChunkSender::new(max_chunk_len, 1),
            receiver: ChunkReceiver::new(max_chunk_len, 1),
            max_chunk_len,
        }
    }

    /// Send the given serialized message.
    ///
    /// Returns `false` if the channel has no room. A message is never sent partially.
    pub fn send<P: PacketPool, I: Copy>(
        &mut self,
        channel: &mut ReliableChannel<P, I>,
        msg: &[u8],
    ) -> (result: Result<bool, Error>)
        requires
            old(self).wf(),
            old(channel).wf(),
        ensures
            final(self).wf(),
            final(self).max_chunk_len() == old(self).max_chunk_len(),
            final(self).receiver() == old(self).receiver(),
            final(channel).wf(),
            final(channel).task == old(channel).task,
            final(channel).shared.recv_window == old(channel).shared.recv_window,
            result == Err::<bool, Error>(Error::SizeLimit) <==> msg@.len() > old(self).max_chunk_len(),
            old(self).sender().queued().len() + msg@.len() <= old(self).max_chunk_len() ==> {
                &&& result == Ok::<bool, Error>(true)
                &&& *final(channel) == *old(channel)
                &&& final(self).sender().queued() == old(self).sender().queued() + msg@
                &&& final(self).sender().outgoing() == old(self).sender().outgoing()
            },
            msg@.len() > old(self).max_chunk_len() ==> {
                &&& result == Err::<bool, Error>(Error::SizeLimit)
                &&& *final(self) == *old(self)
                &&& *final(channel) == *old(channel)
            },
            msg@.len() <= old(self).max_chunk_len() ==> {
                let side = old(self).send_side(*old(channel));
                &&& result == (match side.send_result(msg@.len(), old(self).max_chunk_len()) {
                    Ok(done) => Ok(done),
                    Err(error) => Err(Error::ReliableChannelError(error)),
                })
                &&& final(self).send_side(*final(channel)) == side.after_send(
                    msg@,
                    old(self).max_chunk_len(),
                    1,
                )
                &&& side.queued.len() + msg@.len() > old(self).max_chunk_len() ==> side.packs_faithfully(1)
            },
    {
        if msg.len() > self.max_chunk_len {
            return Err(Error::SizeLimit);
        }
        match self.sender.send(channel, msg) {
            Ok(done) => Ok(done),
            Err(error) => Err(Error::ReliableChannelError(error)),
        }
    }

    /// Finish sending the current block of messages, compressing them and sending them over the
    /// reliable channel.
    ///
    /// Returns `false` if the channel has no room.
    pub fn flush<P: PacketPool, I: Copy>(&mut self, channel: &mut ReliableChannel<P, I>) -> (result:
        Result<bool, Error>)
        requires
            old(self).wf(),
            old(channel).wf(),
        ensures
            final(self).wf(),
            final(self).max_chunk_len() == old(self).max_chunk_len(),
            final(self).receiver() == old(self).receiver(),
            final(channel).wf(),
            final(channel).task == old(channel).task,
            final(channel).shared.recv_window == old(channel).shared.recv_window,
            result == (match old(self).send_side(*old(channel)).flush_result(1) {
                Ok(done) => Ok(done),
                Err(error) => Err(Error::ReliableChannelError(error)),
            }),
            final(self).send_side(*final(channel)) == old(self).send_side(
                *old(channel),
            ).after_flush(1),
            old(self).send_side(*old(channel)).packs_faithfully(1),
    {
        match self.sender.flush(channel) {
            Ok(done) => Ok(done),
            Err(error) => Err(Error::ReliableChannelError(error)),
        }
    }

    /// Reads from the channel until there is a message. Returns whether there is one.
    pub fn poll_recv_ready<P: PacketPool, I: Copy>(
        &mut self,
        channel: &mut ReliableChannel<P, I>,
    ) -> (result: Result<bool, Error>)
        requires
            old(self).wf(),
            old(channel).wf(),
        ensures
            final(self).wf(),
            final(self).max_chunk_len() == old(self).max_chunk_len(),
            final(self).sender() == old(self).sender(),
            final(channel).wf(),
            final(channel).task == old(channel).task,
            final(channel).shared.send_window == old(channel).shared.send_window,
            ({
                let (outcome, after) = receiving(
                    old(self).recv_side(*old(channel)),
                    old(self).max_chunk_len(),
                    1,
                    true,
                );
                &&& final(self).recv_side(*final(channel)) == after
                &&& match outcome {
                    Outcome::Ready => result == Ok::<bool, Error>(true),
                    Outcome::Pending => result == Ok::<bool, Error>(false),
                    Outcome::Failed(error) => result == Err::<bool, Error>(
                        Error::ReliableChannelError(error),
                    ),
                    Outcome::TooLarge => result == Err::<bool, Error>(Error::ChunkTooLarge),
                    Outcome::Corrupt => result matches Err(Error::SnapError(_)),
                }
            }),
    {
        match self.receiver.recv_ready(channel, true) {
            Ok(done) => Ok(done),
            Err(ChunkError::ReliableChannelError(error)) => Err(Error::ReliableChannelError(error)),
            Err(ChunkError::SnapError(error)) => Err(Error::SnapError(error)),
            Err(ChunkError::TooLarge) => Err(Error::ChunkTooLarge),
        }
    }

    /// The received messages that have not been taken yet. The first one of them can be
    /// deserialized once [`CompressedTypedChannel::poll_recv_ready`] has found it.
    pub fn peek(&self) -> (bytes: &[u8])
        requires
            self.wf(),
        ensures
            bytes@ == self.receiver().unread(),
    {
        self.receiver.peek()
    }

    /// Takes the next message, which was that long. If it could not be deserialized nothing is taken.
    pub fn recv_next(&mut self, len: usize)
        requires
            old(self).wf(),
            len <= old(self).receiver().unread().len(),
        ensures
            final(self).wf(),
            final(self).max_chunk_len() == old(self).max_chunk_len(),
            final(self).sender() == old(self).sender(),
            final(self).receiver().incoming() == old(self).receiver().incoming(),
            final(self).receiver().unread() == old(self).receiver().unread().skip(len as int),
    {
        self.receiver.consume(len)
    }
}

/// A chunk has the maximum supported length or less exactly if its length less 1 can be told in two bytes.
pub proof fn law_length_fits_two_bytes(len: nat)
    requires
        len > 0,
    ensures
        len <= MAX_CHUNK_LEN <==> len - 1 < 256 * 256,
{
}

} // verus!
