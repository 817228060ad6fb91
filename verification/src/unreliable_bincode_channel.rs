//! Serialized messages over an unreliable channel.
//!
//! The channel carries messages that were serialized with `bincode`, and leaves the serialization
//! itself to its user.

use vstd::prelude::*;

use crate::framing::{after_message, first_message, framed, SizeLimit, PREFIX_LEN};
use crate::packet::{Packet, PacketPool, MAX_PACKET_LEN};
use crate::unreliable_channel::{
    Disconnected, Flush, Outgoing, RecvError, UnreliableChannel, UnreliableView, MAX_MESSAGE_LEN,
};

verus! {

/// The contents of an [`UnreliableBincodeChannel`].
#[verifier::ext_equal]
pub struct UnreliableBincodeView {
    pub channel: UnreliableView,
    /// The message that has not been written to the channel yet, nothing if it is empty.
    pub pending: Seq<u8>,
}

impl UnreliableBincodeView {
    /// The maximum message length.
    pub open spec fn max_message_len(self) -> int {
        if self.channel.limit < MAX_PACKET_LEN {
            self.channel.limit - PREFIX_LEN
        } else {
            MAX_MESSAGE_LEN as int
        }
    }

    /// Whether the pending message cannot be written before the channel is flushed.
    pub open spec fn blocked(self) -> bool {
        self.pending.len() > 0 && !self.channel.fits(self.pending.len())
    }

    /// Everything that has been written or waits to be, as it is transmitted.
    pub open spec fn unsent(self) -> Seq<u8> {
        if self.pending.len() == 0 {
            self.channel.out
        } else {
            self.channel.out + framed(self.pending)
        }
    }

    /// The contents after the pending message is written to the channel.
    pub open spec fn written(self) -> UnreliableBincodeView {
        if self.pending.len() == 0 {
            self
        } else {
            UnreliableBincodeView {
                channel: UnreliableView {
                    out: self.channel.out + framed(self.pending),
                    ..self.channel
                },
                pending: Seq::empty(),
            }
        }
    }
}

/// Wraps an `UnreliableChannel` together with an internal buffer to allow easily sending message
/// types serialized with `bincode`.
///
/// Just like the underlying channel, messages are not guaranteed to arrive, nor are they guaranteed
/// to arrive in order.
pub struct UnreliableBincodeChannel<P: PacketPool> {
    channel: UnreliableChannel<P>,
    pending_write: Vec<u8>,
}

impl<P: PacketPool> UnreliableBincodeChannel<P> {
    pub closed spec fn view(&self) -> UnreliableBincodeView {
        UnreliableBincodeView { channel: self.channel@, pending: self.pending_write@ }
    }

    pub closed spec fn inner(&self) -> UnreliableChannel<P> {
        self.channel
    }

    pub closed spec fn wf(&self) -> bool {
        &&& self.channel.wf()
        &&& self@.channel.limit >= PREFIX_LEN
        &&& self@.pending.len() <= self@.max_message_len()
    }

    /// Wraps a channel whose packets have room for the length of a message.
    pub fn new(channel: UnreliableChannel<P>) -> (result: Self)
        requires
            channel.wf(),
            channel@.limit >= PREFIX_LEN,
        ensures
            result.wf(),
            result@ == (UnreliableBincodeView { channel: channel@, pending: Seq::empty() }),
    {
        UnreliableBincodeChannel { channel, pending_write: Vec::new() }
    }

    /// The wrapped channel, without the message that has not been written to it yet.
    pub fn into_inner(self) -> (channel: UnreliableChannel<P>)
        requires
            self.wf(),
        ensures
            channel.wf(),
            channel == self.inner(),
            channel@ == self@.channel,
    {
        self.channel
    }

    /// Maximum allowed message length based on the packet capacity of the provided `PacketPool`.
    ///
    /// Will never be greater than `MAX_PACKET_LEN - 2`.
    pub fn max_message_len(&self) -> (len: u16)
        requires
            self.wf(),
        ensures
            len == self@.max_message_len(),
            len == self.inner()@.max_message_len(),
            len <= MAX_PACKET_LEN - 2,
            len == (if self@.channel.limit < 32768 {
                self@.channel.limit - 2
            } else {
                32766
            }),
    {
        self.channel.max_message_len()
    }

    /// Whether no message waits to be written to the channel.
    pub fn is_ready(&self) -> (ready: bool)
        ensures
            ready == (self@.pending.len() == 0),
    {
        self.pending_write.len() == 0
    }

    /// Writes the pending message to the channel, so that the next one can be sent.
    ///
    /// Returns `false` if the channel has to be flushed first.
    pub fn send_ready(&mut self) -> (ready: bool)
        requires
            old(self).wf(),
        ensures
            final(self).wf(),
            ready == !old(self)@.blocked(),
            ready <==> old(self)@.pending.len() == 0 || old(self)@.channel.out.len() + 2 + old(
                self,
            )@.pending.len() <= old(self)@.channel.limit,
            !ready ==> old(self)@.channel.out.len() > 0,
            final(self)@ == (if ready {
                old(self)@.written()
            } else {
                old(self)@
            }),
    {
        if self.pending_write.len() == 0 {
            return true;
        }
        match self.channel.send(self.pending_write.as_slice()) {
            Ok(true) => {
                self.pending_write.clear();
                assert(self@ =~= old(self)@.written());
                true
            },
            _ => false,
        }
    }

    /// Takes a serialized message to be written to the channel. The channel must have been made
    /// ready by [`UnreliableBincodeChannel::send_ready`].
    ///
    /// A message that serializes to nothing is not sent.
    pub fn start_send(&mut self, msg: Vec<u8>) -> (result: Result<(), SizeLimit>)
        requires
            old(self).wf(),
            old(self)@.pending.len() == 0,
        ensures
            final(self).wf(),
            result == (if msg@.len() <= old(self)@.max_message_len() {
                Ok::<(), SizeLimit>(())
            } else {
                Err::<(), SizeLimit>(SizeLimit)
            }),
            result is Ok <==> 2 + msg@.len() <= old(self)@.channel.limit && msg@.len() <= 32766,
            final(self)@ == (if result is Ok {
                UnreliableBincodeView { pending: msg@, ..old(self)@ }
            } else {
                old(self)@
            }),
    {
        if msg.len() > self.max_message_len() as usize {
            return Err(SizeLimit);
        }
        self.pending_write = msg;
        Ok(())
    }

    /// Writes the given serialized message to the channel as soon as that is ready.
    ///
    /// Returns `false` if the channel has to be flushed first.
    pub fn try_send(&mut self, msg: Vec<u8>) -> (result: Result<bool, SizeLimit>)
        requires
            old(self).wf(),
        ensures
            final(self).wf(),
            result == (if old(self)@.blocked() {
                Ok::<bool, SizeLimit>(false)
            } else if msg@.len() <= old(self)@.max_message_len() {
                Ok::<bool, SizeLimit>(true)
            } else {
                Err::<bool, SizeLimit>(SizeLimit)
            }),
            result is Err <==> {
                &&& old(self)@.pending.len() == 0 || old(self)@.channel.out.len() + 2 + old(
                    self,
                )@.pending.len() <= old(self)@.channel.limit
                &&& 2 + msg@.len() > old(self)@.channel.limit || msg@.len() > 32766
            },
            result == Ok::<bool, SizeLimit>(false) <==> old(self)@.pending.len() > 0 && old(
                self,
            )@.channel.out.len() + 2 + old(self)@.pending.len() > old(self)@.channel.limit,
            final(self)@ == (match result {
                Ok(false) => old(self)@,
                Ok(true) => UnreliableBincodeView { pending: msg@, ..old(self)@.written() },
                Err(_) => old(self)@.written(),
            }),
    {
        if !self.send_ready() {
            return Ok(false);
        }
        match self.start_send(msg) {
            Ok(()) => Ok(true),
            Err(error) => Err(error),
        }
    }

    /// Finish sending any unsent coalesced packets.
    ///
    /// This *must* be called to guarantee that any sent messages are actually sent to the outgoing
    /// packet stream. It has to be called until nothing is left to send.
    pub fn flush(&mut self, outgoing: Outgoing) -> (result: Result<Flush<P::Packet>, Disconnected>)
        requires
            old(self).wf(),
        ensures
            final(self).wf(),
            // Nothing is dropped, and nothing is done only if there is nothing to do.
            result matches Ok(Flush::Send(packet)) ==> packet.view() + final(self)@.unsent() == old(
                self,
            )@.unsent(),
            !(result matches Ok(Flush::Send(_))) ==> final(self)@.unsent() == old(self)@.unsent(),
            result matches Ok(Flush::Done) <==> old(self)@.pending.len() == 0 && old(
                self,
            )@.channel.out.len() == 0,
            result is Err ==> outgoing == Outgoing::Disconnected,
            result matches Ok(Flush::Pending) ==> outgoing == Outgoing::Blocked,
            ({
                let ready = if old(self)@.blocked() {
                    old(self)@
                } else {
                    old(self)@.written()
                };
                &&& match result {
                    Ok(Flush::Done) => ready.channel.out.len() == 0,
                    Ok(Flush::Pending) => ready.channel.out.len() > 0 && outgoing
                        == Outgoing::Blocked,
                    Ok(Flush::Send(packet)) => {
                        &&& ready.channel.out.len() > 0
                        &&& outgoing == Outgoing::Ready
                        &&& packet.wf()
                        &&& packet.view() == ready.channel.out
                        &&& packet.limit() == ready.channel.limit
                    },
                    Err(_) => ready.channel.out.len() > 0 && outgoing == Outgoing::Disconnected,
                }
                &&& final(self)@ == (if result matches Ok(Flush::Send(_)) {
                    UnreliableBincodeView {
                        channel: UnreliableView { out: Seq::empty(), ..ready.channel },
                        ..ready
                    }
                } else {
                    ready
                })
            }),
    {
        self.send_ready();
        assert(self@.unsent() =~= old(self)@.unsent());
        let result = self.channel.flush(outgoing);
        assert(self@.channel.out.len() == 0 && self@.pending.len() > 0 ==> self@.unsent() =~= framed(
            self@.pending,
        ));
        result
    }

    /// Whether an incoming packet has to be received before the next message can be read.
    pub fn needs_packet(&self) -> (result: bool)
        requires
            self.wf(),
        ensures
            result == (self@.channel.unread.len() == 0),
    {
        self.channel.needs_packet()
    }

    /// Receives an incoming packet, or the news that the incoming packet channel has been
    /// disconnected, once all messages of the last packet have been read.
    pub fn recv_packet(&mut self, packet: Option<P::Packet>) -> (result: Result<(), Disconnected>)
        requires
            old(self).wf(),
            old(self)@.channel.unread.len() == 0,
            packet matches Some(p) ==> p.wf(),
        ensures
            final(self).wf(),
            result == (if packet is Some {
                Ok::<(), Disconnected>(())
            } else {
                Err::<(), Disconnected>(Disconnected)
            }),
            final(self)@ == (match packet {
                Some(p) => UnreliableBincodeView {
                    channel: UnreliableView { unread: p.view(), ..old(self)@.channel },
                    ..old(self)@
                },
                None => old(self)@,
            }),
    {
        self.channel.recv_packet(packet)
    }

    /// Reads the next message of the incoming packet, to be deserialized.
    ///
    /// If the message has a bad format the rest of the packet is dropped.
    pub fn next_msg(&mut self) -> (result: Result<&[u8], RecvError>)
        requires
            old(self).wf(),
            old(self)@.channel.unread.len() > 0,
        ensures
            final(self).wf(),
            final(self)@ == (UnreliableBincodeView {
                channel: UnreliableView {
                    unread: after_message(old(self)@.channel.unread),
                    ..old(self)@.channel
                },
                ..old(self)@
            }),
            match first_message(old(self)@.channel.unread) {
                Some(msg) => result matches Ok(bytes) && bytes@ == msg,
                None => result == Err::<&[u8], RecvError>(RecvError::BadFormat),
            },
    {
        self.channel.next_msg()
    }
}

/// A message of at most the maximum length fits into an empty packet, so after a flush it can be
/// written.
pub proof fn law_flush_makes_room(view: UnreliableBincodeView)
    requires
        view.channel.limit >= PREFIX_LEN,
        view.pending.len() <= view.max_message_len(),
        view.channel.out.len() == 0,
    ensures
        !view.blocked(),
{
}

/// A message is refused for its size only if no packet could carry it, with the two bytes of its length:
/// the maximum message length is that of the wrapped channel.
pub proof fn law_refused_only_if_too_long(view: UnreliableBincodeView, len: nat)
    requires
        view.channel.limit >= 2,
    ensures
        len <= view.max_message_len() <==> 2 + len <= view.channel.limit && len <= 32766,
        view.max_message_len() == view.channel.max_message_len(),
{
}

/// A pending message waits only if the packet has no room for it, and is written behind what was written
/// before.
pub proof fn law_pending_waits_for_room(view: UnreliableBincodeView)
    ensures
        view.blocked() <==> view.pending.len() > 0 && view.channel.out.len() + 2
            + view.pending.len() > view.channel.limit,
        view.pending.len() <= 65535 && !view.blocked() ==> {
            &&& view.written().pending.len() == 0
            &&& view.written().channel == (if view.pending.len() == 0 {
                view.channel
            } else {
                view.channel.after_send(view.pending)
            })
        },
{
}

} // verus!
