//! A reliable, ordered stream over unreliable, unordered packets.
//!
//! The channel performs no I/O and reads no clock. A driver hands it the packets that arrive and the
//! current instant, transmits the packets that it hands back, and decides from the bandwidth and the
//! round trip time when unacked data is due to be sent again.

pub mod completion;
pub mod flow_control;
pub mod reliability;
pub mod retransmission;
pub mod round;
pub mod segment;
pub mod timing;

use vstd::prelude::*;

use crate::packet::{Packet, PacketPool};
use crate::reliable_channel::flow_control::law_send_fills_packet;
use crate::reliable_channel::segment::{
    ack_packet, data_packet, law_parse_ack_packet, parse, parsed, write_ack, write_data_header,
    Segment, ACK_LEN, DATA_HEADER_LEN, MAX_DATA_LEN,
};
use crate::ring_buffer::{min_nat, overlay};
use crate::windows::recv::{law_accepted_bounds, RecvView, RecvWindow};
use crate::windows::send::{
    has_range, law_ack_once, range_index, AckResult, SendView, SendWindow,
};
use crate::windows::stream::{
    advance, before, lemma_advance, steps, stream_gt, StreamPos, MAX_DISTANCE,
};

verus! {

/// All reliable channel errors are fatal. Once any error is returned all further reliable channel
/// method calls will return `Error::Shutdown` errors.
#[derive(Debug, Clone, Copy, PartialEq, Eq, Structural)]
pub enum Error {
    /// Incoming or outgoing packet channel has been disconnected.
    Disconnected,
    /// Remote endpoint has violated the reliability protocol.
    ProtocolError,
    /// An error has been encountered that has caused the channel to shutdown.
    Shutdown,
}

/// The integer settings of a reliable channel.
#[derive(Debug, Clone, Copy, PartialEq, Eq, Structural)]
pub struct Settings {
    /// The target outgoing bandwidth, in bytes / sec.
    ///
    /// This is the target bandwidth usage for all sent packets, not the target bandwidth for the
    /// actual underlying stream. Both sends and resends (but not currently acks) count against
    /// this bandwidth limit, so this is designed to limit the amount of traffic this channel
    /// produces.
    pub bandwidth: u32,
    /// The size of the incoming ring buffer.
    pub recv_window_size: u32,
    /// The size of the outgoing ring buffer.
    pub send_window_size: u32,
    /// The maximum available bytes to send in a single burst.
    pub burst_bandwidth: u32,
    /// The sending side of a channel will always send a constant amount of bytes more than what it
    /// believes the remote's recv window actually is, to avoid stalling the connection. This
    /// controls the amount past the recv window which will be sent, and also the initial amount of
    /// data that will be sent when the connection starts up.
    pub init_send: u32,
}

impl Settings {
    /// Neither a window nor a rate is empty, and the windows are small enough for stream positions
    /// to be ordered.
    pub open spec fn valid(self) -> bool {
        &&& self.bandwidth != 0
        &&& 0 < self.recv_window_size <= MAX_DISTANCE
        &&& 0 < self.send_window_size <= MAX_DISTANCE
        &&& self.burst_bandwidth != 0
        &&& self.init_send != 0
    }

    /// Whether a channel can be opened with these settings.
    pub fn is_valid(&self) -> (result: bool)
        ensures
            result == self.valid(),
    {
        self.bandwidth != 0 && self.recv_window_size != 0 && self.recv_window_size <= MAX_DISTANCE
            && self.send_window_size != 0 && self.send_window_size <= MAX_DISTANCE
            && self.burst_bandwidth != 0 && self.init_send != 0
    }
}

/// Settings are valid exactly if nothing is 0 and both windows are shorter than 2^31 bytes.
pub proof fn law_valid_settings(settings: Settings)
    ensures
        settings.valid() <==> {
            &&& settings.bandwidth > 0
            &&& settings.burst_bandwidth > 0
            &&& settings.init_send > 0
            &&& 0 < settings.recv_window_size < 0x8000_0000
            &&& 0 < settings.send_window_size < 0x8000_0000
        },
{
}

/// The two windows of a channel.
pub struct Shared {
    pub send_window: SendWindow,
    pub recv_window: RecvWindow,
}

impl Shared {
    pub open spec fn wf(&self) -> bool {
        &&& self.send_window.wf()
        &&& self.recv_window.wf()
    }

    /// Opens the windows of a stream that starts at position 0.
    pub fn new(settings: &Settings) -> (shared: Shared)
        requires
            settings.valid(),
        ensures
            shared.wf(),
            shared.send_window@ == (SendView {
                capacity: settings.send_window_size as nat,
                send_pos: 0,
                sent: Seq::empty(),
                pending: Seq::empty(),
                unacked: Seq::empty(),
            }),
            shared.recv_window@ == (RecvView {
                recv_pos: 0,
                ready: Seq::empty(),
                ahead: Seq::new(settings.recv_window_size as nat, |i: int| None),
            }),
    {
        Shared {
            send_window: SendWindow::new(settings.send_window_size, 0),
            recv_window: RecvWindow::new(settings.recv_window_size, 0),
        }
    }
}

/// A sent stream range that was not acknowledged yet.
#[derive(Debug, Clone, Copy)]
pub struct UnackedRange<I> {
    pub start: StreamPos,
    pub end: StreamPos,
    /// The instant at which the range was last sent, or `None` if it should be sent at once.
    pub last_sent: Option<I>,
    /// Whether the range was sent more than once, so that an acknowledgement does not tell the
    /// round trip time.
    pub retransmit: bool,
}

/// What the sending side of a channel knows: the send window, and how the remote is believed to
/// stand.
#[verifier::ext_equal]
pub struct SenderView<I> {
    pub window: SendView,
    /// The number of bytes that the remote is believed to be ready to receive.
    pub remote_recv_available: nat,
    /// The unacked ranges of the window, with what is known of each.
    pub unacked: Seq<UnackedRange<I>>,
}

/// The unacked ranges `unacked` are those of the window.
pub open spec fn tracks<I>(
    unacked: Seq<UnackedRange<I>>,
    ranges: Seq<(StreamPos, StreamPos)>,
) -> bool {
    &&& unacked.len() == ranges.len()
    &&& forall|i: int|
        #![trigger unacked[i]]
        #![trigger ranges[i]]
        0 <= i < ranges.len() ==> ranges[i] == (unacked[i].start, unacked[i].end)
}

impl<I> SenderView<I> {
    /// The channel tracks exactly the ranges that the window has sent and not seen acknowledged.
    pub open spec fn consistent(self) -> bool {
        &&& self.window.valid()
        &&& tracks(self.unacked, self.window.unacked)
    }

    /// The amount of new data that goes into the next packet of capacity `limit`.
    pub open spec fn next_amount(self, limit: nat) -> nat {
        min_nat(
            min_nat(self.window.pending.len(), self.remote_recv_available),
            min_nat(MAX_DATA_LEN as nat, (limit - DATA_HEADER_LEN) as nat),
        )
    }

    /// The next data packet.
    pub open spec fn next_packet(self, limit: nat) -> Seq<u8> {
        data_packet(
            self.window.send_pos,
            self.window.pending.take(self.next_amount(limit) as int),
        )
    }

    /// The state after the next data packet is sent.
    pub open spec fn after_send(self, limit: nat, now: I) -> SenderView<I> {
        let n = self.next_amount(limit);
        SenderView {
            window: self.window.sending(n),
            remote_recv_available: (self.remote_recv_available - n) as nat,
            unacked: self.unacked.push(
                UnackedRange {
                    start: self.window.send_pos,
                    end: advance(self.window.send_pos, n as int),
                    last_sent: Some(now),
                    retransmit: false,
                },
            ),
        }
    }

    /// The state after it is learned that the remote can receive up to `window_end`.
    pub open spec fn learning(self, window_end: StreamPos) -> SenderView<I> {
        let gap = steps(self.window.send_pos, window_end) as nat;
        SenderView {
            remote_recv_available: if before(self.window.send_pos, window_end)
                && self.remote_recv_available < gap {
                gap
            } else {
                self.remote_recv_available
            },
            ..self
        }
    }

    /// Whether new data is sent when it is learned that the remote can receive up to `window_end`.
    pub open spec fn answers(
        self,
        window_end: StreamPos,
        bytes_available: bool,
        limit: nat,
    ) -> bool {
        let learned = self.learning(window_end);
        self.remote_recv_available == 0 && learned.remote_recv_available != 0 && bytes_available
            && learned.next_amount(limit) != 0
    }

    /// The state after it is learned that the remote can receive up to `window_end`, and new data is
    /// sent if the remote was not ready before.
    pub open spec fn answering(
        self,
        window_end: StreamPos,
        bytes_available: bool,
        limit: nat,
        now: I,
    ) -> SenderView<I> {
        let learned = self.learning(window_end);
        if self.answers(window_end, bytes_available, limit) {
            learned.after_send(limit, now)
        } else {
            learned
        }
    }

    /// The state after the connection is kept from stalling.
    pub open spec fn unstalled(self, init_send: nat) -> SenderView<I> {
        SenderView {
            remote_recv_available: if self.unacked.len() == 0 && self.remote_recv_available == 0 {
                init_send
            } else {
                self.remote_recv_available
            },
            ..self
        }
    }

    /// The state after the range from `start` to `end` is acknowledged. What remains of a partially
    /// acknowledged range is to be resent at once.
    pub open spec fn after_ack(self, start: StreamPos, end: StreamPos) -> SenderView<I> {
        let i = range_index(self.window.unacked, start);
        SenderView {
            window: self.window.acked(start, end),
            unacked: match self.window.ack_result(start, end) {
                AckResult::NotFound => self.unacked,
                AckResult::Ack => self.unacked.remove(i),
                AckResult::PartialAck(nacked_end) => self.unacked.update(
                    i,
                    UnackedRange {
                        start: end,
                        end: nacked_end,
                        last_sent: None,
                        retransmit: true,
                    },
                ),
            },
            ..self
        }
    }

    /// The instant at which the acknowledged range was sent, if that tells the round trip time.
    pub open spec fn timed_by(self, start: StreamPos, end: StreamPos) -> Option<I> {
        let range = self.unacked[range_index(self.window.unacked, start)];
        if self.window.acks(start, end) && !range.retransmit {
            range.last_sent
        } else {
            None
        }
    }

    /// The state after the range at `index` is sent again.
    pub open spec fn after_resend(self, index: int, now: I) -> SenderView<I> {
        SenderView {
            unacked: self.unacked.update(
                index,
                UnackedRange { last_sent: Some(now), retransmit: true, ..self.unacked[index] },
            ),
            ..self
        }
    }

    /// The packet that sends the range at `index` again.
    pub open spec fn resend_packet(self, index: int) -> Seq<u8> {
        let range = self.unacked[index];
        let first = self.window.offset(range.start);
        data_packet(
            range.start,
            self.window.sent.subrange(first, first + steps(range.start, range.end)),
        )
    }
}

/// The acknowledgement of data that is received at position `start`, if any of it can be stored.
pub open spec fn answer_to(recv: RecvView, start: StreamPos, data: Seq<u8>) -> Option<Seq<u8>> {
    let len = recv.accepted_len(start, data.len());
    if len > 0 {
        Some(ack_packet(start, len, recv.received(start, data).window_end()))
    } else {
        None
    }
}

/// What a driver has to do after a packet was received.
pub struct Effects<P, I> {
    /// A data packet to transmit. It counts against the bandwidth.
    pub data: Option<P>,
    /// An acknowledgement packet to transmit. It does not count against the bandwidth.
    pub ack: Option<P>,
    /// The instant that the acknowledged data was sent at, from which the round trip time follows.
    pub timed_by: Option<I>,
    /// There is room for a waiting writer.
    pub wake_writer: bool,
    /// There is data for a waiting reader.
    pub wake_reader: bool,
}

/// The protocol state of a reliable channel.
pub struct Task<P: PacketPool, I> {
    packet_pool: P,
    init_send: u32,
    remote_recv_available: u32,
    unacked_ranges: Vec<UnackedRange<I>>,
}

impl<P: PacketPool, I: Copy> Task<P, I> {
    /// The capacity of the packets.
    pub closed spec fn limit(&self) -> nat {
        self.packet_pool.limit()
    }

    pub closed spec fn init_send(&self) -> u32 {
        self.init_send
    }

    /// The unacked ranges, in the order in which they were sent.
    pub closed spec fn unacked(&self) -> Seq<UnackedRange<I>> {
        self.unacked_ranges@
    }

    /// The number of bytes that the remote is believed to be ready to receive.
    pub closed spec fn remote_window(&self) -> nat {
        self.remote_recv_available as nat
    }

    /// What the sending side knows, given its window.
    pub open spec fn sender(&self, window: SendView) -> SenderView<I> {
        SenderView {
            window,
            remote_recv_available: self.remote_window(),
            unacked: self.unacked(),
        }
    }

    /// The packets are large enough for the protocol, and every unacked range fits into one.
    pub closed spec fn wf(&self) -> bool {
        &&& self.packet_pool.wf()
        &&& self.packet_pool.limit() >= ACK_LEN
        &&& forall|i: int|
            #![trigger self.unacked_ranges@[i]]
            0 <= i < self.unacked_ranges@.len() ==> 0 < steps(
                self.unacked_ranges@[i].start,
                self.unacked_ranges@[i].end,
            ) <= min_nat(
                MAX_DATA_LEN as nat,
                (self.packet_pool.limit() - DATA_HEADER_LEN) as nat,
            )
    }

    /// Creates the state of a channel on which nothing has happened.
    pub fn new(packet_pool: P, settings: &Settings) -> (task: Self)
        requires
            packet_pool.wf(),
            packet_pool.limit() >= ACK_LEN,
            settings.valid(),
        ensures
            task.wf(),
            task.limit() == packet_pool.limit(),
            task.init_send() == settings.init_send,
            task.remote_window() == settings.init_send,
            task.unacked() == Seq::<UnackedRange<I>>::empty(),
    {
        let task = Task {
            packet_pool,
            init_send: settings.init_send,
            remote_recv_available: settings.init_send,
            unacked_ranges: Vec::new(),
        };
        assert(task.unacked_ranges@ =~= Seq::empty());
        task
    }

    /// Sends data that is available to send, if there is bandwidth for it and the remote is ready to
    /// receive.
    #[verifier::rlimit(60)]
    pub fn send(
        &mut self,
        send_window: &mut SendWindow,
        bytes_available: bool,
        now: I,
    ) -> (packet: Option<P::Packet>)
        requires
            old(self).wf(),
            old(send_window).wf(),
            old(self).sender(old(send_window)@).consistent(),
        ensures
            final(self).wf(),
            final(send_window).wf(),
            final(self).limit() == old(self).limit(),
            final(self).init_send() == old(self).init_send(),
            ({
                let prior = old(self).sender(old(send_window)@);
                let next = final(self).sender(final(send_window)@);
                let limit = old(self).limit();
                &&& next.consistent()
                &&& if !bytes_available || prior.next_amount(limit) == 0 {
                    packet is None && next == prior
                } else {
                    &&& packet matches Some(sent) && sent.wf() && sent.view()
                        == prior.next_packet(limit)
                    &&& next == prior.after_send(limit, now)
                }
                &&& packet is Some <==> bytes_available && prior.window.pending.len() > 0
                    && prior.remote_recv_available > 0
                &&& packet matches Some(sent) ==> {
                    &&& sent.view().len() <= limit
                    &&& sent.view().skip(6) + next.window.pending == prior.window.pending
                    &&& next.remote_recv_available + sent.view().len() - 6
                        == prior.remote_recv_available
                }
            }),
    {
        let ghost prior = self.sender(send_window@);
        let ghost limit = self.limit();
        if !bytes_available {
            return None;
        }
        let mut amount: u32 = send_window.send_available();
        if self.remote_recv_available < amount {
            amount = self.remote_recv_available;
        }
        if MAX_DATA_LEN < amount {
            amount = MAX_DATA_LEN;
        }
        if amount == 0 {
            return None;
        }
        let mut packet = self.packet_pool.acquire();
        let room: usize = packet.capacity() - DATA_HEADER_LEN;
        if room < amount as usize {
            amount = room as u32;
        }
        assert(amount == prior.next_amount(limit));
        packet.resize(DATA_HEADER_LEN + amount as usize, 0);
        let bytes: &mut [u8] = packet.as_mut_slice();
        let (_, data) = bytes.split_at_mut(DATA_HEADER_LEN);
        let range = send_window.send(data);
        assert(data@ =~= prior.window.pending.take(amount as int));
        let (start, end): (StreamPos, StreamPos) = match range {
            Some(range) => range,
            None => (0, 0),
        };
        write_data_header(bytes, start);
        proof {
            lemma_advance(start, amount as int);
            send_window.lemma_valid();
        }
        self.unacked_ranges.push(
            UnackedRange { start, end, last_sent: Some(now), retransmit: false },
        );
        self.remote_recv_available = self.remote_recv_available - amount;
        assert(packet.view() =~= prior.next_packet(limit));
        assert(self.sender(send_window@) =~= prior.after_send(limit, now));
        proof {
            law_send_fills_packet(prior, limit, now);
        }
        Some(packet)
    }

    /// The number of unacked ranges.
    pub fn unacked_len(&self) -> (n: usize)
        ensures
            n == self.unacked().len(),
    {
        self.unacked_ranges.len()
    }

    /// The unacked range at `index`.
    pub fn unacked_range(&self, index: usize) -> (range: UnackedRange<I>)
        requires
            index < self.unacked().len(),
        ensures
            range == self.unacked()[index as int],
    {
        self.unacked_ranges[index]
    }

    /// Sends the unacked range at `index` again.
    #[verifier::rlimit(60)]
    pub fn resend(&mut self, send_window: &SendWindow, index: usize, now: I) -> (packet: P::Packet)
        requires
            old(self).wf(),
            send_window.wf(),
            old(self).sender(send_window@).consistent(),
            index < old(self).sender(send_window@).unacked.len(),
        ensures
            final(self).wf(),
            final(self).limit() == old(self).limit(),
            final(self).init_send() == old(self).init_send(),
            final(self).sender(send_window@).consistent(),
            final(self).sender(send_window@) == old(self).sender(send_window@).after_resend(
                index as int,
                now,
            ),
            packet.wf(),
            packet.view() == old(self).sender(send_window@).resend_packet(index as int),
            packet.view().len() == 6 + steps(
                old(self).unacked()[index as int].start,
                old(self).unacked()[index as int].end,
            ),
            final(self).unacked()[index as int].last_sent == Some(now),
            final(self).unacked()[index as int].retransmit,
    {
        let ghost prior = self.sender(send_window@);
        let mut range: UnackedRange<I> = self.unacked_ranges[index];
        let len: u32 = range.end.wrapping_sub(range.start);
        proof {
            assert(prior.window.unacked[index as int] == (range.start, range.end));
            let first = prior.window.offset(range.start);
            assert(first + len <= prior.window.sent.len());
        }
        let mut packet = self.packet_pool.acquire();
        packet.resize(DATA_HEADER_LEN + len as usize, 0);
        let bytes: &mut [u8] = packet.as_mut_slice();
        let (_, data) = bytes.split_at_mut(DATA_HEADER_LEN);
        send_window.get_unacked(range.start, data);
        proof {
            let first = prior.window.offset(range.start);
            assert(data@ =~= prior.window.sent.subrange(first, first + len));
        }
        write_data_header(bytes, range.start);
        range.last_sent = Some(now);
        range.retransmit = true;
        self.unacked_ranges[index] = range;
        assert(packet.view() =~= prior.resend_packet(index as int));
        assert(self.sender(send_window@) =~= prior.after_resend(index as int, now));
        packet
    }

    /// Records the acknowledgement of the range from `start` to `end` and returns what was known of
    /// the acknowledged range.
    fn ack(
        &mut self,
        send_window: &mut SendWindow,
        start: StreamPos,
        end: StreamPos,
    ) -> (acked: Option<UnackedRange<I>>)
        requires
            old(self).wf(),
            old(send_window).wf(),
            old(self).sender(old(send_window)@).consistent(),
        ensures
            final(self).wf(),
            final(send_window).wf(),
            final(self).limit() == old(self).limit(),
            final(self).init_send() == old(self).init_send(),
            ({
                let prior = old(self).sender(old(send_window)@);
                let next = final(self).sender(final(send_window)@);
                &&& next.consistent()
                &&& next == prior.after_ack(start, end)
                &&& acked == (if prior.window.acks(start, end) {
                    Some(prior.unacked[range_index(prior.window.unacked, start)])
                } else {
                    None
                })
            }),
    {
        let ghost prior = self.sender(send_window@);
        let ghost i = range_index(prior.window.unacked, start);
        let result: AckResult = send_window.ack_range(start, end);
        proof {
            send_window.lemma_valid();
        }
        let acked: Option<UnackedRange<I>> = match result {
            AckResult::NotFound => None,
            AckResult::Ack => {
                let index: usize = self.find(start, Ghost(prior));
                let range: UnackedRange<I> = self.unacked_ranges.remove(index);
                Some(range)
            },
            AckResult::PartialAck(nacked_end) => {
                let index: usize = self.find(start, Ghost(prior));
                let range: UnackedRange<I> = self.unacked_ranges[index];
                proof {
                    prior.window.lemma_acks_near(start, end);
                }
                self.unacked_ranges[index] = UnackedRange {
                    start: end,
                    end: nacked_end,
                    last_sent: None,
                    retransmit: true,
                };
                Some(range)
            },
        };
        assert(self.sender(send_window@) =~= prior.after_ack(start, end));
        acked
    }

    /// The index of the unacked range that starts at `start`.
    fn find(&self, start: StreamPos, Ghost(prior): Ghost<SenderView<I>>) -> (index: usize)
        requires
            prior.consistent(),
            prior.unacked == self.unacked_ranges@,
            has_range(prior.window.unacked, start),
        ensures
            index < self.unacked_ranges@.len(),
            index == range_index(prior.window.unacked, start),
    {
        let ghost i = range_index(prior.window.unacked, start);
        let mut index: usize = 0;
        while self.unacked_ranges[index].start != start
            invariant
                prior.consistent(),
                prior.unacked == self.unacked_ranges@,
                has_range(prior.window.unacked, start),
                i == range_index(prior.window.unacked, start),
                index <= i < self.unacked_ranges.len(),
            decreases self.unacked_ranges.len() - index,
        {
            assert(prior.window.unacked[i].0 == start);
            assert(self.unacked_ranges@[i].start == start);
            index = index + 1;
        }
        proof {
            assert(prior.window.unacked[index as int].0 == start);
            prior.window.lemma_range_index(index as int);
        }
        index
    }

    /// Receives a packet.
    ///
    /// An acknowledgement may make room in the send window and tell that the remote is ready for
    /// more data; if it was not ready before, more data is sent. Data is stored in the receive
    /// window, and what could be stored is acknowledged, ignoring bandwidth limits.
    #[verifier::rlimit(60)]
    pub fn recv_packet(
        &mut self,
        shared: &mut Shared,
        packet: &[u8],
        bytes_available: bool,
        now: I,
    ) -> (result: Result<Effects<P::Packet, I>, Error>)
        requires
            old(self).wf(),
            old(shared).wf(),
            old(self).sender(old(shared).send_window@).consistent(),
        ensures
            final(self).wf(),
            final(shared).wf(),
            final(self).limit() == old(self).limit(),
            final(self).init_send() == old(self).init_send(),
            final(self).sender(final(shared).send_window@).consistent(),
            result matches Ok(effects) ==> {
                let window = old(shared).send_window@;
                let next_window = final(shared).send_window@;
                let ready = old(shared).recv_window@.ready;
                let next_ready = final(shared).recv_window@.ready;
                // A writer that found no room is told when there is some, and is told nothing else.
                &&& window.sent.len() + window.pending.len() == window.capacity
                    && next_window.sent.len() + next_window.pending.len() < window.capacity
                    ==> effects.wake_writer
                &&& effects.wake_writer ==> next_window.sent.len() + next_window.pending.len()
                    < window.capacity
                // A reader that found no data is told when there is some, and is told nothing else.
                &&& next_ready.len() > ready.len() ==> effects.wake_reader
                &&& effects.wake_reader ==> next_ready.len() > 0
                // What leaves the pending data is sent, and received data is answered.
                &&& effects.data is Some <==> next_window.pending != window.pending
                &&& effects.data matches Some(data) ==> data.view().skip(6) + next_window.pending
                    == window.pending
                &&& final(shared).recv_window@ != old(shared).recv_window@ ==> effects.ack is Some
                &&& effects.ack matches Some(ack) ==> ack.view().len() == 10
            },
            ({
                let prior = old(self).sender(old(shared).send_window@);
                let next = final(self).sender(final(shared).send_window@);
                let prior_recv = old(shared).recv_window@;
                let next_recv = final(shared).recv_window@;
                let limit = old(self).limit();
                match parsed(packet@) {
                    None => {
                        &&& result matches Err(error) && error == Error::ProtocolError
                        &&& next == prior
                        &&& next_recv == prior_recv
                    },
                    Some(Segment::Ack { start, end, window_end }) => {
                        let learned = prior.learning(window_end);
                        let sends = prior.answers(window_end, bytes_available, limit);
                        let sent = prior.answering(window_end, bytes_available, limit, now);
                        &&& next == sent.after_ack(start, end)
                        &&& next_recv == prior_recv
                        &&& result matches Ok(effects) && {
                            &&& effects.data is Some <==> sends
                            &&& effects.data matches Some(data) ==> data.wf() && data.view()
                                == learned.next_packet(limit)
                            &&& effects.ack is None
                            &&& effects.timed_by == sent.timed_by(start, end)
                            &&& effects.wake_writer <==> sent.window.acks(start, end)
                                && next.window.room() > 0
                            &&& !effects.wake_reader
                        }
                    },
                    Some(Segment::Data { start }) => {
                        let data = packet@.skip(DATA_HEADER_LEN as int);
                        let accepted = prior_recv.accepted(start, data.len());
                        &&& next == prior
                        &&& next_recv == prior_recv.received(start, data)
                        &&& result matches Ok(effects) && {
                            &&& effects.data is None
                            &&& effects.ack is Some <==> accepted is Some
                            &&& effects.ack matches Some(ack) ==> ack.wf() && ack.view()
                                == ack_packet(
                                start,
                                prior_recv.accepted_len(start, data.len()),
                                next_recv.window_end(),
                            )
                            &&& effects.ack is Some <==> answer_to(prior_recv, start, data) is Some
                            &&& effects.ack matches Some(ack) ==> {
                                &&& answer_to(prior_recv, start, data) == Some(ack.view())
                                &&& parsed(ack.view()) == Some(
                                    Segment::Ack {
                                        start,
                                        end: accepted->0,
                                        window_end: next_recv.window_end(),
                                    },
                                )
                            }
                            &&& effects.timed_by is None
                            &&& !effects.wake_writer
                            &&& effects.wake_reader <==> accepted is Some
                                && next_recv.ready.len() > 0
                        }
                    },
                }
            }),
    {
        let ghost prior = self.sender(shared.send_window@);
        match parse(packet) {
            None => Err(Error::ProtocolError),
            Some(Segment::Ack { start, end, window_end }) => {
                let send_pos: StreamPos = shared.send_window.send_pos();
                let mut data: Option<P::Packet> = None;
                if stream_gt(window_end, send_pos) {
                    let old_remote_recv_available: u32 = self.remote_recv_available;
                    let gap: u32 = window_end.wrapping_sub(send_pos);
                    if self.remote_recv_available < gap {
                        self.remote_recv_available = gap;
                    }
                    assert(self.sender(shared.send_window@) =~= prior.learning(window_end));
                    if old_remote_recv_available == 0 {
                        // If we now believe the remote is newly ready to receive data, go ahead and
                        // send it.
                        data = self.send(&mut shared.send_window, bytes_available, now);
                    }
                } else {
                    assert(self.sender(shared.send_window@) =~= prior.learning(window_end));
                }
                proof {
                    lemma_effects_of_ack(
                        prior,
                        window_end,
                        bytes_available,
                        self.limit(),
                        now,
                        start,
                        end,
                    );
                }
                let acked: Option<UnackedRange<I>> = self.ack(
                    &mut shared.send_window,
                    start,
                    end,
                );
                let mut timed_by: Option<I> = None;
                let mut wake_writer: bool = false;
                match acked {
                    Some(range) => {
                        // Only ranges that did not need to be retransmitted tell the round trip
                        // time, otherwise we do not know which packet is being acked.
                        if !range.retransmit {
                            timed_by = range.last_sent;
                        }
                        wake_writer = shared.send_window.write_available() > 0;
                    },
                    None => {},
                }
                Ok(Effects { data, ack: None, timed_by, wake_writer, wake_reader: false })
            },
            Some(Segment::Data { start }) => {
                let data: &[u8] = vstd::slice::slice_subrange(
                    packet,
                    DATA_HEADER_LEN,
                    packet.len(),
                );
                assert(data@ =~= packet@.skip(DATA_HEADER_LEN as int));
                let ghost prior_recv = shared.recv_window@;
                proof {
                    shared.recv_window.lemma_valid();
                    law_accepted_bounds(prior_recv, start, data@);
                }
                let mut ack: Option<P::Packet> = None;
                let mut wake_reader: bool = false;
                match shared.recv_window.recv(start, data) {
                    Some(end) => {
                        let len: u32 = end.wrapping_sub(start);
                        proof {
                            lemma_advance(
                                start,
                                prior_recv.accepted_len(start, data@.len()) as int,
                            );
                            law_parse_ack_packet(
                                start,
                                prior_recv.accepted_len(start, data@.len()),
                                shared.recv_window@.window_end(),
                            );
                        }
                        let mut ack_packet = self.packet_pool.acquire();
                        ack_packet.resize(ACK_LEN, 0);
                        write_ack(
                            ack_packet.as_mut_slice(),
                            start,
                            len,
                            shared.recv_window.window_end(),
                        );
                        ack = Some(ack_packet);
                        wake_reader = shared.recv_window.read_available() > 0;
                    },
                    None => {},
                }
                assert(self.sender(shared.send_window@) =~= prior);
                Ok(Effects { data: None, ack, timed_by: None, wake_writer: false, wake_reader })
            },
        }
    }

    /// Keeps the connection from stalling.
    ///
    /// If there are no unacked ranges to resend and the remote is believed to have no room left, no
    /// acknowledgement will arrive that could tell otherwise. A small amount of data is then sent
    /// past the remote receive window, so that the remote answers when it starts processing data
    /// again.
    pub fn avoid_stall(&mut self)
        requires
            old(self).wf(),
        ensures
            final(self).wf(),
            final(self).limit() == old(self).limit(),
            final(self).init_send() == old(self).init_send(),
            final(self).unacked() == old(self).unacked(),
            final(self).remote_window() == (if old(self).unacked().len() == 0 && old(
                self,
            ).remote_window() == 0 {
                old(self).init_send() as nat
            } else {
                old(self).remote_window()
            }),
            forall|window: SendView| #[trigger]
                final(self).sender(window) == old(self).sender(window).unstalled(
                    old(self).init_send() as nat,
                ),
    {
        if self.unacked_ranges.len() == 0 && self.remote_recv_available == 0 {
            self.remote_recv_available = self.init_send;
        }
    }

    /// The number of bytes that the remote is believed to be ready to receive. New data is only
    /// worth waking up for if there are any.
    pub fn remote_recv_available(&self) -> (n: u32)
        ensures
            n == self.remote_window(),
    {
        self.remote_recv_available
    }
}

/// What the sending side sends in answer to an acknowledgement leaves the pending data, and only what is
/// acknowledged makes room.
proof fn lemma_effects_of_ack<I>(
    prior: SenderView<I>,
    window_end: StreamPos,
    bytes_available: bool,
    limit: nat,
    now: I,
    start: StreamPos,
    end: StreamPos,
)
    requires
        prior.window.valid(),
        prior.answering(window_end, bytes_available, limit, now).window.valid(),
        limit >= 10,
    ensures
        ({
            let learned = prior.learning(window_end);
            let sends = prior.answers(window_end, bytes_available, limit);
            let sent = prior.answering(window_end, bytes_available, limit, now);
            let next = sent.after_ack(start, end);
            let room = prior.window.capacity - prior.window.sent.len() - prior.window.pending.len();
            let next_room = prior.window.capacity - next.window.sent.len()
                - next.window.pending.len();
            &&& room == 0 && next_room > 0 ==> sent.window.acks(start, end)
            &&& next.window.capacity == prior.window.capacity
            &&& sends <==> next.window.pending != prior.window.pending
            &&& sends ==> learned.next_packet(limit).skip(6) + next.window.pending
                == prior.window.pending
        }),
{
    let learned = prior.learning(window_end);
    let sent = prior.answering(window_end, bytes_available, limit, now);
    law_send_fills_packet(learned, limit, now);
    law_ack_once(sent.window, start, end);
}

/// Whether a channel works.
#[derive(Debug, Clone, Copy, PartialEq, Eq, Structural)]
pub enum Status {
    /// The channel works.
    Running,
    /// The channel has failed, and its user has not been told yet.
    Failed(Error),
    /// The channel has failed, and its user has been told.
    Shutdown,
}

impl Status {
    /// The error that a read or a write meets.
    pub open spec fn error(self) -> Option<Error> {
        match self {
            Status::Running => None,
            Status::Failed(error) => Some(error),
            Status::Shutdown => Some(Error::Shutdown),
        }
    }

    /// The status after `error` has been met.
    pub open spec fn failing(self, error: Error) -> Status {
        match self {
            Status::Running => Status::Failed(error),
            _ => self,
        }
    }

    /// The status after a read or a write.
    pub open spec fn reported(self) -> Status {
        match self {
            Status::Running => Status::Running,
            _ => Status::Shutdown,
        }
    }
}

/// Turns a stream of unreliable, unordered packets into a reliable in-order stream of data.
pub struct ReliableChannel<P: PacketPool, I> {
    pub shared: Shared,
    pub task: Task<P, I>,
    pub status: Status,
}

impl<P: PacketPool, I: Copy> ReliableChannel<P, I> {
    /// What the sending side knows.
    pub open spec fn sender(&self) -> SenderView<I> {
        self.task.sender(self.shared.send_window@)
    }

    pub open spec fn wf(&self) -> bool {
        &&& self.task.wf()
        &&& self.shared.wf()
        &&& self.sender().consistent()
    }

    /// Opens a channel whose packets come from `packet_pool`.
    pub fn new(packet_pool: P, settings: &Settings) -> (channel: Self)
        requires
            packet_pool.wf(),
            packet_pool.limit() >= ACK_LEN,
            settings.valid(),
        ensures
            channel.wf(),
            channel.status == Status::Running,
            channel.task.limit() == packet_pool.limit(),
            channel.task.init_send() == settings.init_send,
            channel.sender() == (SenderView::<I> {
                window: SendView {
                    capacity: settings.send_window_size as nat,
                    send_pos: 0,
                    sent: Seq::empty(),
                    pending: Seq::empty(),
                    unacked: Seq::empty(),
                },
                remote_recv_available: settings.init_send as nat,
                unacked: Seq::empty(),
            }),
            channel.shared.recv_window@ == (RecvView {
                recv_pos: 0,
                ready: Seq::empty(),
                ahead: Seq::new(settings.recv_window_size as nat, |i: int| None),
            }),
    {
        let channel = ReliableChannel {
            shared: Shared::new(settings),
            task: Task::new(packet_pool, settings),
            status: Status::Running,
        };
        proof {
            channel.shared.send_window.lemma_valid();
        }
        channel
    }

    /// Takes note that the channel has failed.
    pub fn fail(&mut self, error: Error)
        ensures
            final(self).shared == old(self).shared,
            final(self).task == old(self).task,
            final(self).status == (if old(self).status == Status::Running {
                Status::Failed(error)
            } else {
                old(self).status
            }),
            final(self).status == old(self).status.failing(error),
    {
        if self.status == Status::Running {
            self.status = Status::Failed(error);
        }
    }

    /// Checks that the channel works before a read or a write.
    fn check(&mut self) -> (result: Result<(), Error>)
        ensures
            final(self).shared == old(self).shared,
            final(self).task == old(self).task,
            final(self).status == old(self).status.reported(),
            result == (match old(self).status.error() {
                None => Ok(()),
                Some(error) => Err(error),
            }),
    {
        match self.status {
            Status::Running => Ok(()),
            Status::Failed(error) => {
                self.status = Status::Shutdown;
                Err(error)
            },
            Status::Shutdown => Err(Error::Shutdown),
        }
    }

    /// Writes the given data to the channel, as far as there is room, and returns how much was
    /// written. If nothing was written the writer has to wait.
    ///
    /// In order to ensure that data is written to the channel in a timely manner,
    /// `ReliableChannel::flush` must be called.
    pub fn write(&mut self, data: &[u8]) -> (result: Result<usize, Error>)
        requires
            old(self).wf(),
        ensures
            final(self).wf(),
            final(self).task == old(self).task,
            final(self).shared.recv_window == old(self).shared.recv_window,
            final(self).status == old(self).status.reported(),
            match old(self).status.error() {
                Some(error) => {
                    &&& result == Err::<usize, Error>(error)
                    &&& final(self).shared == old(self).shared
                },
                None => {
                    let window = old(self).shared.send_window@;
                    let next = final(self).shared.send_window@;
                    &&& result == Ok::<usize, Error>(min_nat(window.room(), data@.len()) as usize)
                    &&& next == window.written(data@)
                    &&& result matches Ok(n) && {
                        &&& n <= data@.len()
                        &&& n < data@.len() ==> next.sent.len() + next.pending.len()
                            == window.capacity
                        &&& next.pending == window.pending + data@.take(n as int)
                    }
                },
            },
    {
        match self.check() {
            Ok(()) => {},
            Err(error) => {
                return Err(error);
            },
        }
        let len: u32 = self.shared.send_window.write(data);
        proof {
            self.shared.send_window.lemma_valid();
        }
        Ok(len as usize)
    }

    /// Checks that previously written data can be sent in a timely manner. The driver then wakes up
    /// the sending side.
    pub fn flush(&self) -> (result: Result<(), Error>)
        ensures
            result == (if self.status == Status::Shutdown {
                Err::<(), Error>(Error::Shutdown)
            } else {
                Ok::<(), Error>(())
            }),
    {
        if self.status == Status::Shutdown {
            Err(Error::Shutdown)
        } else {
            Ok(())
        }
    }

    /// Reads any available data and returns how much was read. If nothing was read the reader has to
    /// wait.
    pub fn read(&mut self, data: &mut [u8]) -> (result: Result<usize, Error>)
        requires
            old(self).wf(),
        ensures
            final(self).wf(),
            final(self).task == old(self).task,
            final(self).shared.send_window == old(self).shared.send_window,
            final(self).status == old(self).status.reported(),
            match old(self).status.error() {
                Some(error) => {
                    &&& result == Err::<usize, Error>(error)
                    &&& final(self).shared == old(self).shared
                    &&& final(data)@ == old(data)@
                },
                None => {
                    let window = old(self).shared.recv_window@;
                    let n = min_nat(window.ready.len(), old(data)@.len());
                    &&& result == Ok::<usize, Error>(n as usize)
                    &&& final(data)@ == overlay(old(data)@, 0, window.ready.take(n as int))
                    &&& final(self).shared.recv_window@ == window.reading(n)
                    &&& n == old(data)@.len() || final(self).shared.recv_window@.ready.len() == 0
                    &&& final(data)@.take(n as int) + final(self).shared.recv_window@.ready
                        == window.ready
                },
            },
    {
        match self.check() {
            Ok(()) => {},
            Err(error) => {
                return Err(error);
            },
        }
        let len: u32 = self.shared.recv_window.read(data);
        Ok(len as usize)
    }
}

/// A channel that works meets no error, and the first error that it does meet is reported once, as it
/// is, whatever else fails in the meantime.
pub proof fn law_first_error_is_reported(error: Error, later: Error)
    ensures
        Status::Running.error() is None,
        Status::Running.reported() == Status::Running,
        Status::Running.failing(error).error() == Some(error),
        Status::Running.failing(error).failing(later).error() == Some(error),
        Status::Running.failing(error).reported().error() == Some(Error::Shutdown),
        Status::Running.failing(error).reported().failing(later).error() == Some(Error::Shutdown),
{
}

/// Errors are fatal: once an error has been reported, every later read and write meets
/// `Error::Shutdown`, whatever else fails.
pub proof fn law_errors_are_fatal(status: Status)
    requires
        status.error() is Some,
    ensures
        status.reported() == Status::Shutdown,
        status.reported().error() == Some(Error::Shutdown),
        status.reported().reported() == status.reported(),
{
}

} // verus!
