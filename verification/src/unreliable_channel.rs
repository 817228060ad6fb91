//! Unreliable, unordered messages over unreliable, unordered packets.
//!
//! The channel performs no I/O and reads no clock. A driver transmits the packets that it hands
//! back, hands it the packets that arrive, and decides from the bandwidth when a packet may leave.

use vstd::prelude::*;

use crate::codec::{decode_u16, encode_u16, read_u16, write_u16};
use crate::framing::{
    after_message, coalesced, first_message, framed, law_messages_read_back, messages, PREFIX_LEN,
};
use crate::packet::{Packet, PacketPool, MAX_PACKET_LEN};

verus! {

/// The maximum possible message length of an `UnreliableChannel` message for the largest possible
/// packet, based on the `MAX_PACKET_LEN`.
pub const MAX_MESSAGE_LEN: u16 = MAX_PACKET_LEN - 2;

/// Fatal error due to channel disconnection.
#[derive(Debug, Clone, Copy, PartialEq, Eq, Structural)]
pub struct Disconnected;

#[derive(Debug, Clone, Copy, PartialEq, Eq, Structural)]
pub enum SendError {
    Disconnected(Disconnected),
    /// Non-fatal error, message is unsent.
    TooBig,
}

#[derive(Debug, Clone, Copy, PartialEq, Eq, Structural)]
pub enum RecvError {
    Disconnected(Disconnected),
    /// Non-fatal error, the remainder of the incoming packet is dropped.
    BadFormat,
}

#[derive(Debug, Clone, Copy, PartialEq, Eq, Structural)]
pub struct Settings {
    /// The target outgoing bandwidth, in bytes / sec.
    pub bandwidth: u32,
    /// The maximum amount of bandwidth credit that can accumulate. This is the maximum bytes that
    /// will be sent in a single burst.
    pub burst_bandwidth: u32,
}

/// What stands between a packet and its transmission.
#[derive(Debug, Clone, Copy, PartialEq, Eq, Structural)]
pub enum Outgoing {
    /// Bandwidth is used up, or the outgoing packet channel is full.
    Blocked,
    /// A packet can be sent.
    Ready,
    /// The outgoing packet channel has been disconnected.
    Disconnected,
}

/// The outcome of a flush.
#[derive(Debug, PartialEq, Eq)]
pub enum Flush<T> {
    /// There was nothing to send.
    Done,
    /// The flush has to be tried again later.
    Pending,
    /// This packet is to be sent, and then nothing is left to send.
    Send(T),
}

/// The contents of an [`UnreliableChannel`].
#[verifier::ext_equal]
pub struct UnreliableView {
    /// The capacity of a packet.
    pub limit: nat,
    /// The bytes of the packet that is being filled.
    pub out: Seq<u8>,
    /// The bytes of the incoming packet that have not been read yet.
    pub unread: Seq<u8>,
}

impl UnreliableView {
    /// Whether a message of `len` bytes fits in the packet that is being filled.
    pub open spec fn fits(self, len: nat) -> bool {
        self.out.len() + PREFIX_LEN + len <= self.limit
    }

    /// What an attempt to write a message of `len` bytes returns: whether it is written.
    pub open spec fn send_result(self, len: nat) -> Result<bool, SendError> {
        if len > u16::MAX {
            Err(SendError::TooBig)
        } else if self.fits(len) {
            Ok(true)
        } else if self.out.len() > 0 {
            Ok(false)
        } else {
            Err(SendError::TooBig)
        }
    }

    /// The contents after an attempt to write a message.
    pub open spec fn after_send(self, msg: Seq<u8>) -> UnreliableView {
        if self.send_result(msg.len()) == Ok::<bool, SendError>(true) {
            UnreliableView { out: self.out + framed(msg), ..self }
        } else {
            self
        }
    }

    /// The contents after attempts to write some messages, one after the other.
    pub open spec fn after_sends(self, msgs: Seq<Seq<u8>>) -> UnreliableView
        decreases msgs.len(),
    {
        if msgs.len() == 0 {
            self
        } else {
            self.after_sends(msgs.drop_last()).after_send(msgs.last())
        }
    }

    /// The maximum message length.
    pub open spec fn max_message_len(self) -> int {
        if self.limit < MAX_PACKET_LEN {
            self.limit - PREFIX_LEN
        } else {
            MAX_MESSAGE_LEN as int
        }
    }
}

/// The number of bytes that some messages take in a packet.
pub open spec fn packet_bytes(msgs: Seq<Seq<u8>>) -> nat
    decreases msgs.len(),
{
    if msgs.len() == 0 {
        0
    } else {
        packet_bytes(msgs.drop_last()) + 2 + msgs.last().len()
    }
}

/// A message is written exactly if it has room in the packet with the two bytes of its length. It has to
/// wait for a flush exactly if there is something to flush and no room, and is refused exactly if it
/// would not fit in an empty packet or its length not in two bytes.
pub proof fn law_send_needs_room(view: UnreliableView, len: nat)
    ensures
        view.send_result(len) == Ok::<bool, SendError>(true) <==> len <= 65535 && view.out.len() + 2
            + len <= view.limit,
        view.send_result(len) == Ok::<bool, SendError>(false) <==> len <= 65535 && view.out.len() > 0
            && view.out.len() + 2 + len > view.limit,
        view.send_result(len) is Err <==> len > 65535 || (view.out.len() == 0 && 2 + len
            > view.limit),
        view.send_result(len) is Err ==> view.send_result(len) == Err::<bool, SendError>(
            SendError::TooBig,
        ),
{
}

/// Messages are coalesced: all messages that have room in one packet together are written to it, one after
/// the other, and can be read back from it.
pub proof fn law_messages_share_a_packet(view: UnreliableView, msgs: Seq<Seq<u8>>)
    requires
        view.out.len() == 0,
        packet_bytes(msgs) <= view.limit,
        forall|i: int| 0 <= i < msgs.len() ==> (#[trigger] msgs[i]).len() <= 65535,
    ensures
        view.after_sends(msgs).out.len() == packet_bytes(msgs),
        view.after_sends(msgs).limit == view.limit,
        view.after_sends(msgs).unread == view.unread,
        messages(view.after_sends(msgs).out) == msgs,
        forall|i: int| #![trigger msgs[i]]
            0 <= i < msgs.len() ==> view.after_sends(msgs.take(i)).send_result(msgs[i].len())
                == Ok::<bool, SendError>(true),
{
    lemma_sends_coalesce(view, msgs);
    law_messages_read_back(msgs);
}

proof fn lemma_sends_coalesce(view: UnreliableView, msgs: Seq<Seq<u8>>)
    requires
        view.out.len() == 0,
        packet_bytes(msgs) <= view.limit,
        forall|i: int| 0 <= i < msgs.len() ==> (#[trigger] msgs[i]).len() <= 65535,
    ensures
        view.after_sends(msgs) == (UnreliableView { out: coalesced(msgs), ..view }),
        coalesced(msgs).len() == packet_bytes(msgs),
        forall|i: int| #![trigger msgs[i]]
            0 <= i < msgs.len() ==> view.after_sends(msgs.take(i)).send_result(msgs[i].len())
                == Ok::<bool, SendError>(true),
    decreases msgs.len(),
{
    if msgs.len() == 0 {
        assert(view.out =~= coalesced(msgs));
    } else {
        let first = msgs.drop_last();
        lemma_sends_coalesce(view, first);
        assert forall|i: int| #![trigger msgs[i]] 0 <= i < msgs.len() implies view.after_sends(
            msgs.take(i),
        ).send_result(msgs[i].len()) == Ok::<bool, SendError>(true) by {
            if i < first.len() {
                assert(msgs.take(i) =~= first.take(i));
                assert(first[i] == msgs[i]);
            } else {
                assert(msgs.take(i) =~= first);
            }
        }
        assert(view.after_sends(msgs).out =~= coalesced(msgs));
    }
}

/// The maximum message length is what fits in an empty packet, and in the largest packet there is, next to
/// the two bytes of the length.
pub proof fn law_max_message_fits(view: UnreliableView, len: nat)
    requires
        view.limit >= 2,
    ensures
        len <= view.max_message_len() <==> 2 + len <= view.limit && len <= 32766,
        view.max_message_len() >= 0,
        view.out.len() == 0 && len <= view.max_message_len() ==> view.send_result(len) == Ok::<
            bool,
            SendError,
        >(true),
{
}

/// Turns a stream of unreliable, unordered packets into a stream of unreliable, unordered messages.
pub struct UnreliableChannel<P: PacketPool> {
    packet_pool: P,
    out_packet: P::Packet,
    in_packet: Option<(P::Packet, usize)>,
}

impl<P: PacketPool> UnreliableChannel<P> {
    pub closed spec fn view(&self) -> UnreliableView {
        UnreliableView {
            limit: self.packet_pool.limit(),
            out: self.out_packet.view(),
            unread: match self.in_packet {
                Some((packet, in_pos)) => packet.view().skip(in_pos as int),
                None => Seq::empty(),
            },
        }
    }

    pub closed spec fn wf(&self) -> bool {
        &&& self.packet_pool.wf()
        &&& self.out_packet.wf()
        &&& self.out_packet.limit() == self.packet_pool.limit()
        &&& self.in_packet matches Some((packet, in_pos)) ==> {
            &&& packet.wf()
            &&& in_pos <= packet.view().len()
        }
    }

    pub fn new(packet_pool: P) -> (channel: Self)
        requires
            packet_pool.wf(),
        ensures
            channel.wf(),
            channel@ == (UnreliableView {
                limit: packet_pool.limit(),
                out: Seq::empty(),
                unread: Seq::empty(),
            }),
    {
        let mut packet_pool = packet_pool;
        let out_packet = packet_pool.acquire();
        UnreliableChannel { packet_pool, out_packet, in_packet: None }
    }

    /// The capacity of a packet.
    pub fn packet_capacity(&self) -> (capacity: usize)
        requires
            self.wf(),
        ensures
            capacity == self@.limit,
    {
        self.out_packet.capacity()
    }

    /// Maximum allowed message length based on the packet capacity of the provided `PacketPool`.
    ///
    /// Will never be greater than `MAX_PACKET_LEN - 2`.
    pub fn max_message_len(&self) -> (len: u16)
        requires
            self.wf(),
            self@.limit >= PREFIX_LEN,
        ensures
            len == self@.max_message_len(),
            len == (if self@.limit < 32768 {
                self@.limit - 2
            } else {
                32766
            }),
    {
        let capacity: usize = self.out_packet.capacity();
        if capacity < MAX_PACKET_LEN as usize {
            (capacity - PREFIX_LEN) as u16
        } else {
            MAX_MESSAGE_LEN
        }
    }

    /// Write the given message to the channel.
    ///
    /// Messages are coalesced into larger packets before being sent, so in order to guarantee that
    /// the message is actually sent, you must call `flush`.
    ///
    /// Messages have a maximum size based on the size of the packets returned from the packet pool.
    /// Two bytes are used to encode the length of the message, so the maximum message length is
    /// two bytes less than the capacity of a packet.
    ///
    /// Returns `false` if what was written before has to be flushed first. A message is never
    /// written partially.
    pub fn send(&mut self, msg: &[u8]) -> (result: Result<bool, SendError>)
        requires
            old(self).wf(),
        ensures
            final(self).wf(),
            result == old(self)@.send_result(msg@.len()),
            final(self)@ == old(self)@.after_send(msg@),
            result == Ok::<bool, SendError>(true) <==> msg@.len() <= 65535 && old(self)@.out.len() + 2
                + msg@.len() <= old(self)@.limit,
            result == Ok::<bool, SendError>(false) <==> msg@.len() <= 65535 && old(self)@.out.len()
                > 0 && old(self)@.out.len() + 2 + msg@.len() > old(self)@.limit,
            final(self)@ == (if result == Ok::<bool, SendError>(true) {
                UnreliableView { out: old(self)@.out + framed(msg@), ..old(self)@ }
            } else {
                old(self)@
            }),
    {
        proof {
            self.out_packet.lemma_limit();
        }
        if msg.len() > u16::MAX as usize {
            return Err(SendError::TooBig);
        }
        let msg_len: u16 = msg.len() as u16;
        let start: usize = self.out_packet.as_slice().len();
        if self.out_packet.capacity() - start < PREFIX_LEN + msg_len as usize {
            if start > 0 {
                return Ok(false);
            }
            return Err(SendError::TooBig);
        }
        let mut len: [u8; 2] = [0;2];
        write_u16(&mut len, msg_len);
        assert(len@ =~= encode_u16(msg_len));
        self.out_packet.extend(&len);
        self.out_packet.extend(msg);
        assert(self.out_packet.view() =~= old(self).out_packet.view() + framed(msg@));
        Ok(true)
    }

    /// Finish sending any unsent coalesced packets.
    ///
    /// This *must* be called to guarantee that any sent messages are actually sent to the outgoing
    /// packet stream.
    pub fn flush(&mut self, outgoing: Outgoing) -> (result: Result<Flush<P::Packet>, Disconnected>)
        requires
            old(self).wf(),
        ensures
            final(self).wf(),
            match result {
                Ok(Flush::Done) => old(self)@.out.len() == 0,
                Ok(Flush::Pending) => old(self)@.out.len() > 0 && outgoing == Outgoing::Blocked,
                Ok(Flush::Send(packet)) => {
                    &&& old(self)@.out.len() > 0
                    &&& outgoing == Outgoing::Ready
                    &&& packet.wf()
                    &&& packet.view() == old(self)@.out
                    &&& packet.limit() == old(self)@.limit
                },
                Err(_) => old(self)@.out.len() > 0 && outgoing == Outgoing::Disconnected,
            },
            final(self)@ == (if result matches Ok(Flush::Send(_)) {
                UnreliableView { out: Seq::empty(), ..old(self)@ }
            } else {
                old(self)@
            }),
    {
        if self.out_packet.as_slice().len() == 0 {
            return Ok(Flush::Done);
        }
        match outgoing {
            Outgoing::Blocked => Ok(Flush::Pending),
            Outgoing::Disconnected => Err(Disconnected),
            Outgoing::Ready => {
                let mut out_packet = self.packet_pool.acquire();
                std::mem::swap(&mut self.out_packet, &mut out_packet);
                Ok(Flush::Send(out_packet))
            },
        }
    }

    /// Whether an incoming packet has to be received before the next message can be read.
    pub fn needs_packet(&self) -> (result: bool)
        requires
            self.wf(),
        ensures
            result == (self@.unread.len() == 0),
    {
        match &self.in_packet {
            Some((packet, in_pos)) => *in_pos == packet.as_slice().len(),
            None => true,
        }
    }

    /// Receives an incoming packet, or the news that the incoming packet channel has been
    /// disconnected, once all messages of the last packet have been read.
    pub fn recv_packet(&mut self, packet: Option<P::Packet>) -> (result: Result<(), Disconnected>)
        requires
            old(self).wf(),
            old(self)@.unread.len() == 0,
            packet matches Some(p) ==> p.wf(),
        ensures
            final(self).wf(),
            result == (if packet is Some {
                Ok::<(), Disconnected>(())
            } else {
                Err::<(), Disconnected>(Disconnected)
            }),
            final(self)@ == (match packet {
                Some(p) => UnreliableView { unread: p.view(), ..old(self)@ },
                None => old(self)@,
            }),
    {
        match packet {
            Some(packet) => {
                assert(packet.view().skip(0) =~= packet.view());
                self.in_packet = Some((packet, 0));
                Ok(())
            },
            None => {
                self.in_packet = None;
                assert(self@ =~= old(self)@);
                Err(Disconnected)
            },
        }
    }

    /// Reads the next message of the incoming packet.
    ///
    /// If the message has a bad format the rest of the packet is dropped.
    pub fn next_msg(&mut self) -> (result: Result<&[u8], RecvError>)
        requires
            old(self).wf(),
            old(self)@.unread.len() > 0,
        ensures
            final(self).wf(),
            final(self)@ == (UnreliableView {
                unread: after_message(old(self)@.unread),
                ..old(self)@
            }),
            match first_message(old(self)@.unread) {
                Some(msg) => result matches Ok(bytes) && bytes@ == msg,
                None => result == Err::<&[u8], RecvError>(RecvError::BadFormat),
            },
    {
        let ghost unread = self@.unread;
        match &mut self.in_packet {
            Some((packet, in_pos)) => {
                let pos: usize = *in_pos;
                let bytes = packet.as_slice();
                let len: usize = bytes.len();
                if len - pos < PREFIX_LEN {
                    *in_pos = len;
                    assert(packet.view().skip(len as int) =~= Seq::empty());
                    return Err(RecvError::BadFormat);
                }
                let prefix = vstd::slice::slice_subrange(bytes, pos, pos + PREFIX_LEN);
                let length: usize = read_u16(prefix) as usize;
                assert(decode_u16(prefix@) == decode_u16(unread));
                let start: usize = pos + PREFIX_LEN;
                if len - start < length {
                    *in_pos = len;
                    assert(packet.view().skip(len as int) =~= Seq::empty());
                    return Err(RecvError::BadFormat);
                }
                *in_pos = start + length;
                let msg = vstd::slice::slice_subrange(packet.as_slice(), start, start + length);
                assert(msg@ =~= unread.subrange(PREFIX_LEN as int, PREFIX_LEN + length));
                assert(packet.view().skip(start + length) =~= unread.skip(PREFIX_LEN + msg@.len()));
                Ok(msg)
            },
            None => Err(RecvError::BadFormat),
        }
    }
}

} // verus!
