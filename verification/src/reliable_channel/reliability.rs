//! What a pair of reliable channels promises: whatever becomes of the packets on the way, the stream
//! arrives in order, and no part of it is lost.

use vstd::prelude::*;

use crate::reliable_channel::segment::{
    data_packet, law_parse_ack_packet, law_parse_data_packet, parsed, Segment, ACK_LEN,
    DATA_HEADER_LEN, MAX_DATA_LEN,
};
use crate::reliable_channel::{answer_to, SenderView};
use crate::ring_buffer::min_nat;
use crate::windows::delivery::{law_delivery_in_order, Connection, Step};
use crate::windows::recv::{law_receive_progress, lemma_run_is_prefix, run, RecvView};
use crate::windows::send::{
    has_range, law_ack_keeps_stream, law_ack_once, law_resend_carries_stream,
    law_send_carries_stream, range_index,
};
use crate::windows::stream::{
    advance, half, lemma_advance, lemma_advance_twice, lemma_order_from_base, lemma_steps, steps,
    StreamPos, MAX_DISTANCE,
};

verus! {

/// A data packet that was transmitted.
pub struct DataSent {
    /// How far into the stream its data starts.
    pub at: nat,
    pub packet: Seq<u8>,
}

/// An acknowledgement packet that was transmitted.
pub struct AckSent {
    /// How far into the stream the acknowledged data starts.
    pub at: nat,
    /// The number of bytes that it acknowledges.
    pub len: nat,
    pub packet: Seq<u8>,
}

/// One direction of a stream between two channels: what the sending and the receiving channel know,
/// what went in and came out, and all packets that were ever transmitted.
pub struct Flow<I> {
    /// Everything that was accepted by writes.
    pub written: Seq<u8>,
    pub sender: SenderView<I>,
    pub recv: RecvView,
    /// Everything that was read.
    pub delivered: Seq<u8>,
    pub data: Seq<DataSent>,
    pub acks: Seq<AckSent>,
}

/// What can happen.
pub enum Move<I> {
    /// Data is written to the sending channel.
    Write(Seq<u8>),
    /// The sending channel sends new data in a packet of capacity `limit`.
    Send { limit: nat, now: I },
    /// The sending channel sends the unacked range at `index` again.
    Resend { index: nat, now: I },
    /// The sending channel comes to believe that the remote is ready for so many bytes.
    Believe(nat),
    /// One of the data packets reaches the receiving channel, which answers it. Packets may arrive in
    /// any order, any number of times, or never.
    DataArrives(nat),
    /// One of the acknowledgement packets reaches the sending channel.
    AckArrives(nat),
    /// Some ready bytes are read from the receiving channel.
    Read(nat),
}

/// Less than half of all stream positions lie between `a` and `b`.
pub open spec fn near(a: int, b: int) -> bool {
    -half() < a - b < half()
}

impl<I> Flow<I> {
    /// Two channels that were just opened.
    pub open spec fn start(capacity: nat, window: nat, init_send: nat) -> Flow<I> {
        let start = Connection::start(capacity, window, 0);
        Flow {
            written: start.written,
            sender: SenderView {
                window: start.send,
                remote_recv_available: init_send,
                unacked: Seq::empty(),
            },
            recv: start.recv,
            delivered: start.delivered,
            data: Seq::empty(),
            acks: Seq::empty(),
        }
    }

    /// The windows of the two channels.
    pub open spec fn connection(self) -> Connection {
        Connection {
            origin: 0,
            written: self.written,
            send: self.sender.window,
            recv: self.recv,
            delivered: self.delivered,
        }
    }

    /// The number of bytes that the sending channel no longer keeps.
    pub open spec fn released(self) -> int {
        self.sender.window.released(self.written)
    }

    /// The number of bytes that were ever sent.
    pub open spec fn sent_len(self) -> int {
        self.connection().sent_len()
    }

    /// The number of bytes that were ever ready to be read.
    pub open spec fn ready_len(self) -> int {
        self.connection().ready_len()
    }

    /// The receiving channel has got the byte `p` of the stream.
    pub open spec fn has(self, p: int) -> bool {
        p < self.ready_len() || (p - self.ready_len() < self.recv.ahead.len() && self.recv.ahead[p
            - self.ready_len()] is Some)
    }

    /// How far into the stream the unacked range at `index` starts.
    pub open spec fn range_start(self, index: int) -> int {
        self.released() + self.sender.window.offset(self.sender.window.unacked[index].0)
    }

    /// How far into the stream the unacked range at `index` ends.
    pub open spec fn range_end(self, index: int) -> int {
        self.released() + self.sender.window.offset(self.sender.window.unacked[index].1)
    }

    /// The sending channel holds the byte `p` of the stream in the unacked range at `index`.
    pub open spec fn holds(self, index: int, p: int) -> bool {
        &&& 0 <= index < self.sender.window.unacked.len()
        &&& self.range_start(index) <= p < self.range_end(index)
    }

    /// The sending channel holds the byte `p` of the stream in order to send it again.
    pub open spec fn keeps(self, p: int) -> bool {
        exists|index: int| #[trigger] self.holds(index, p)
    }

    /// Whether `m` can happen.
    pub open spec fn can(self, m: Move<I>) -> bool {
        match m {
            Move::Write(data) => true,
            Move::Send { limit, now } => limit >= ACK_LEN && self.sender.next_amount(limit) > 0,
            Move::Resend { index, now } => index < self.sender.unacked.len(),
            Move::Believe(available) => true,
            Move::DataArrives(i) => i < self.data.len() && near(
                self.data[i as int].at as int,
                self.ready_len(),
            ),
            Move::AckArrives(i) => i < self.acks.len() && near(
                self.acks[i as int].at as int,
                self.released(),
            ),
            Move::Read(n) => n <= self.recv.ready.len(),
        }
    }

    /// The state after `m`.
    pub open spec fn after(self, m: Move<I>) -> Flow<I> {
        match m {
            Move::Write(data) => Flow {
                written: self.written + data.take(
                    min_nat(self.sender.window.room(), data.len()) as int,
                ),
                sender: SenderView { window: self.sender.window.written(data), ..self.sender },
                ..self
            },
            Move::Send { limit, now } => Flow {
                sender: self.sender.after_send(limit, now),
                data: self.data.push(
                    DataSent {
                        at: self.sent_len() as nat,
                        packet: self.sender.next_packet(limit),
                    },
                ),
                ..self
            },
            Move::Resend { index, now } => Flow {
                sender: self.sender.after_resend(index as int, now),
                data: self.data.push(
                    DataSent {
                        at: self.range_start(index as int) as nat,
                        packet: self.sender.resend_packet(index as int),
                    },
                ),
                ..self
            },
            Move::Believe(available) => Flow {
                sender: SenderView { remote_recv_available: available, ..self.sender },
                ..self
            },
            Move::DataArrives(i) => self.after_data(self.data[i as int]),
            Move::AckArrives(i) => match parsed(self.acks[i as int].packet) {
                Some(Segment::Ack { start, end, window_end }) => Flow {
                    sender: self.sender.after_ack(start, end),
                    ..self
                },
                _ => self,
            },
            Move::Read(n) => Flow {
                recv: self.recv.reading(n),
                delivered: self.delivered + self.recv.ready.take(n as int),
                ..self
            },
        }
    }

    /// The state after a data packet has arrived.
    pub open spec fn after_data(self, sent: DataSent) -> Flow<I> {
        let data = sent.packet.skip(DATA_HEADER_LEN as int);
        match parsed(sent.packet) {
            Some(Segment::Data { start }) => {
                Flow {
                    recv: self.recv.received(start, data),
                    acks: match answer_to(self.recv, start, data) {
                        Some(packet) => self.acks.push(
                            AckSent {
                                at: sent.at,
                                len: self.recv.accepted_len(start, data.len()),
                                packet,
                            },
                        ),
                        None => self.acks,
                    },
                    ..self
                }
            },
            _ => self,
        }
    }

    /// Every move of `moves` can happen after those before it.
    pub open spec fn can_all(self, moves: Seq<Move<I>>) -> bool
        decreases moves.len(),
    {
        moves.len() == 0 || (self.can_all(moves.drop_last()) && self.after_all(
            moves.drop_last(),
        ).can(moves.last()))
    }

    /// The state after all of `moves`.
    pub open spec fn after_all(self, moves: Seq<Move<I>>) -> Flow<I>
        decreases moves.len(),
    {
        if moves.len() == 0 {
            self
        } else {
            self.after_all(moves.drop_last()).after(moves.last())
        }
    }

    /// A packet that carries the bytes of the stream from `sent.at` on, all of which were sent.
    pub open spec fn carries(self, sent: DataSent) -> bool {
        let len = sent.packet.len() - DATA_HEADER_LEN;
        &&& 0 < len <= MAX_DATA_LEN
        &&& sent.at + len <= self.sent_len()
        &&& sent.packet == data_packet(
            advance(0, sent.at as int),
            self.written.subrange(sent.at as int, sent.at + len),
        )
    }

    /// A packet that acknowledges bytes which the receiving channel has got.
    pub open spec fn admits(self, ack: AckSent) -> bool {
        &&& 0 < ack.len <= MAX_DATA_LEN
        &&& parsed(ack.packet) matches Some(Segment::Ack { start, end, window_end }) && {
            &&& start == advance(0, ack.at as int)
            &&& end == advance(start, ack.len as int)
        }
        &&& forall|p: int| ack.at <= p < ack.at + ack.len ==> #[trigger] self.has(p)
    }

    /// The windows agree with what was written, the packets with the stream, and every byte that was
    /// sent has arrived or is kept in order to be sent again.
    pub open spec fn valid(self) -> bool {
        &&& self.connection().valid()
        &&& self.sender.consistent()
        &&& forall|i: int|
            #![trigger self.sender.window.unacked[i]]
            0 <= i < self.sender.window.unacked.len() ==> steps(
                self.sender.window.unacked[i].0,
                self.sender.window.unacked[i].1,
            ) <= MAX_DATA_LEN
        &&& forall|i: int| 0 <= i < self.data.len() ==> self.carries(#[trigger] self.data[i])
        &&& forall|i: int| 0 <= i < self.acks.len() ==> self.admits(#[trigger] self.acks[i])
        &&& forall|p: int| 0 <= p < self.sent_len() ==> #[trigger] self.has(p) || self.keeps(p)
    }
}

impl<I> Flow<I> {
    #[verifier::rlimit(40)]
    proof fn lemma_write(self, data: Seq<u8>)
        requires
            self.valid(),
        ensures
            self.after(Move::Write(data)).valid(),
    {
        let next = self.after(Move::Write(data));
        self.connection().lemma_step(Step::Write(data));
        assert(next.connection() == self.connection().after(Step::Write(data)));
        assert(next.released() == self.released());
        assert(next.sender.window.unacked_start() == self.sender.window.unacked_start());
        assert forall|i: int| 0 <= i < next.data.len() implies next.carries(
            #[trigger] next.data[i],
        ) by {
            let sent = self.data[i];
            assert(self.carries(sent));
            let len = sent.packet.len() - DATA_HEADER_LEN;
            assert(self.written.subrange(sent.at as int, sent.at + len) =~= next.written.subrange(
                sent.at as int,
                sent.at + len,
            ));
        }
        self.lemma_same_receiver(next);
        assert forall|p: int| 0 <= p < next.sent_len() implies #[trigger] next.has(p) || next.keeps(
            p,
        ) by {
            assert(self.has(p) || self.keeps(p));
            if self.keeps(p) {
                let index = choose|index: int| #[trigger] self.holds(index, p);
                assert(next.holds(index, p));
            }
        }
    }

    /// What the receiving channel has got does not depend on the sending channel.
    proof fn lemma_same_receiver(self, next: Flow<I>)
        requires
            next.recv == self.recv,
            next.delivered == self.delivered,
            next.acks == self.acks,
            forall|i: int| 0 <= i < self.acks.len() ==> self.admits(#[trigger] self.acks[i]),
        ensures
            forall|p: int| #[trigger] next.has(p) == self.has(p),
            forall|i: int| 0 <= i < next.acks.len() ==> next.admits(#[trigger] next.acks[i]),
    {
        assert(forall|p: int| #[trigger] next.has(p) == self.has(p));
        assert forall|i: int| 0 <= i < next.acks.len() implies next.admits(
            #[trigger] next.acks[i],
        ) by {
            let ack = self.acks[i];
            assert(self.admits(ack));
            assert forall|p: int| ack.at <= p < ack.at + ack.len implies #[trigger] next.has(p) by {
                assert(self.has(p));
            }
        }
    }

    #[verifier::rlimit(40)]
    proof fn lemma_send(self, limit: nat, now: I)
        requires
            self.valid(),
            self.can(Move::Send { limit, now }),
        ensures
            self.after(Move::Send { limit, now }).valid(),
    {
        let m = Move::Send { limit, now };
        let next = self.after(m);
        let n = self.sender.next_amount(limit);
        let window = self.sender.window;
        let send_pos = window.send_pos;
        self.connection().lemma_step(Step::Send(n));
        assert(next.connection() == self.connection().after(Step::Send(n)));
        law_send_carries_stream(window, self.written, 0, n);
        lemma_advance(send_pos, n as int);
        lemma_advance_twice(send_pos, n as int, -((window.sent.len() + n) as int));
        lemma_advance_twice(send_pos, -(window.sent.len() as int), window.sent.len() as int);
        lemma_advance_twice(send_pos, -(window.sent.len() as int), (window.sent.len() + n) as int);
        lemma_advance(window.unacked_start(), window.sent.len() as int);
        lemma_advance(window.unacked_start(), (window.sent.len() + n) as int);
        assert(next.sender.window.unacked_start() == window.unacked_start());
        assert(next.released() == self.released());
        assert(next.sent_len() == self.sent_len() + n);
        self.lemma_same_receiver(next);
        assert forall|i: int| 0 <= i < next.data.len() implies next.carries(
            #[trigger] next.data[i],
        ) by {
            if i < self.data.len() {
                assert(self.carries(self.data[i]));
            } else {
                assert(next.data[i].packet.len() == DATA_HEADER_LEN + n);
            }
        }
        assert forall|i: int|
            #![trigger next.sender.window.unacked[i]]
            0 <= i < next.sender.window.unacked.len() implies steps(
            next.sender.window.unacked[i].0,
            next.sender.window.unacked[i].1,
        ) <= MAX_DATA_LEN by {
            if i < window.unacked.len() {
                assert(next.sender.window.unacked[i] == window.unacked[i]);
            }
        }
        assert forall|p: int| 0 <= p < next.sent_len() implies #[trigger] next.has(p) || next.keeps(
            p,
        ) by {
            if p < self.sent_len() {
                assert(self.has(p) || self.keeps(p));
                if self.keeps(p) {
                    let index = choose|index: int| #[trigger] self.holds(index, p);
                    assert(next.holds(index, p));
                }
            } else {
                assert(next.holds(window.unacked.len() as int, p));
            }
        }
    }

    /// What is sent again is what the stream holds there.
    pub proof fn lemma_resend_carries(self, index: int)
        requires
            self.valid(),
            0 <= index < self.sender.unacked.len(),
        ensures
            self.carries(
                DataSent {
                    at: self.range_start(index) as nat,
                    packet: self.sender.resend_packet(index),
                },
            ),
            self.range_start(index) >= 0,
            self.sender.resend_packet(index).len() == DATA_HEADER_LEN + self.range_end(index)
                - self.range_start(index),
    {
        let window = self.sender.window;
        let (start, end) = window.unacked[index];
        let first = window.offset(start);
        let len = steps(start, end);
        lemma_steps(window.unacked_start(), start);
        lemma_steps(window.unacked_start(), end);
        lemma_steps(start, end);
        assert(window.offset(start) < window.offset(end) <= window.sent.len());
        assert(len == window.offset(end) - first);
        law_resend_carries_stream(window, self.written, 0, start, len as nat);
        assert((window.sent + window.pending).subrange(first, first + len)
            =~= window.sent.subrange(first, first + len));
    }

    #[verifier::rlimit(40)]
    proof fn lemma_resend(self, index: nat, now: I)
        requires
            self.valid(),
            self.can(Move::Resend { index, now }),
        ensures
            self.after(Move::Resend { index, now }).valid(),
    {
        let m = Move::Resend { index, now };
        let next = self.after(m);
        self.lemma_resend_carries(index as int);
        self.lemma_same_receiver(next);
        assert(next.connection() == self.connection());
        assert forall|i: int| 0 <= i < next.data.len() implies next.carries(
            #[trigger] next.data[i],
        ) by {
            if i < self.data.len() {
                assert(self.carries(self.data[i]));
            }
        }
        self.lemma_same_sender(next);
    }

    /// What the sending channel keeps depends on its window alone.
    proof fn lemma_same_sender(self, next: Flow<I>)
        requires
            next.written == self.written,
            next.sender.window == self.sender.window,
        ensures
            forall|p: int| self.keeps(p) ==> #[trigger] next.keeps(p),
    {
        assert forall|p: int| self.keeps(p) implies #[trigger] next.keeps(p) by {
            let index = choose|index: int| #[trigger] self.holds(index, p);
            assert(next.holds(index, p));
        }
    }

    /// What has arrived stays, and what is accepted arrives.
    proof fn lemma_received(self, next: Flow<I>, at: int, data: Seq<u8>)
        requires
            self.connection().valid(),
            near(at, self.ready_len()),
            next.recv == self.recv.received(advance(0, at), data),
            next.delivered == self.delivered,
        ensures
            forall|p: int|
                self.has(p) || at <= p < at + self.recv.accepted_len(advance(0, at), data.len())
                    ==> #[trigger] next.has(p),
    {
        let start = advance(0, at);
        let reached = self.ready_len();
        lemma_advance_twice(0, reached, at - reached);
        lemma_order_from_base(0, reached, at);
        assert(self.recv.offset(start) == at - reached);
        let cells = self.recv.with_block(at - reached, data);
        lemma_run_is_prefix(cells);
        let n = self.recv.accepted_len(start, data.len());
        assert forall|p: int| self.has(p) || at <= p < at + n implies #[trigger] next.has(p) by {
            if self.recv.in_reach(start) {
                assert(next.ready_len() == reached + run(cells));
                if p >= next.ready_len() {
                    assert(next.recv.ahead[p - next.ready_len()] == cells[p - reached]);
                }
            }
        }
    }

    #[verifier::rlimit(40)]
    proof fn lemma_data_arrives(self, i: nat)
        requires
            self.valid(),
            self.can(Move::DataArrives(i)),
        ensures
            self.after(Move::DataArrives(i)).valid(),
    {
        let next = self.after(Move::DataArrives(i));
        let sent = self.data[i as int];
        let at = sent.at as int;
        let len = sent.packet.len() - DATA_HEADER_LEN;
        let data = self.written.subrange(at, at + len);
        let start = advance(0, at);
        assert(self.carries(sent));
        law_parse_data_packet(start, data);
        let step = Step::Arrive { at: sent.at, len: len as nat };
        self.connection().lemma_step(step);
        assert(next.connection() == self.connection().after(step));
        let n = self.recv.accepted_len(start, data.len());
        self.lemma_received(next, at, data);
        assert forall|k: int| 0 <= k < next.acks.len() implies next.admits(
            #[trigger] next.acks[k],
        ) by {
            if k < self.acks.len() {
                let ack = self.acks[k];
                assert(self.admits(ack));
                assert forall|p: int| ack.at <= p < ack.at + ack.len implies #[trigger] next.has(
                    p,
                ) by {
                    assert(self.has(p));
                }
            } else {
                law_parse_ack_packet(start, n, next.recv.window_end());
            }
        }
        assert forall|k: int| 0 <= k < next.data.len() implies next.carries(
            #[trigger] next.data[k],
        ) by {
            assert(self.carries(self.data[k]));
        }
        self.lemma_same_sender(next);
        assert forall|p: int| 0 <= p < next.sent_len() implies #[trigger] next.has(p) || next.keeps(
            p,
        ) by {
            assert(self.has(p) || self.keeps(p));
        }
    }

    #[verifier::rlimit(40)]
    proof fn lemma_ack_arrives(self, i: nat)
        requires
            self.valid(),
            self.can(Move::AckArrives(i)),
        ensures
            self.after(Move::AckArrives(i)).valid(),
    {
        let next = self.after(Move::AckArrives(i));
        let ack = self.acks[i as int];
        let window = self.sender.window;
        let start = advance(0, ack.at as int);
        let end = advance(start, ack.len as int);
        assert(self.admits(ack));
        assert(next.sender == self.sender.after_ack(start, end));
        let step = Step::Acknowledge(start, end);
        self.connection().lemma_step(step);
        assert(next.connection() == self.connection().after(step));
        law_ack_keeps_stream(window, self.written, 0, start, end);
        self.lemma_same_receiver(next);
        assert(next.sent_len() == self.sent_len());
        assert forall|k: int| 0 <= k < next.data.len() implies next.carries(
            #[trigger] next.data[k],
        ) by {
            assert(self.carries(self.data[k]));
        }
        if window.acks(start, end) {
            self.lemma_acked_fits(start, end);
            assert forall|p: int| 0 <= p < next.sent_len() implies #[trigger] next.has(p)
                || next.keeps(p) by {
                assert(self.has(p) || self.keeps(p));
                if self.keeps(p) {
                    self.lemma_acked_ranges(next, ack, p);
                    if !next.keeps(p) {
                        assert(self.has(p));
                    }
                }
            }
        } else {
            law_ack_once(window, start, end);
            assert(next.sender.window == window);
            self.lemma_same_sender(next);
            assert forall|p: int| 0 <= p < next.sent_len() implies #[trigger] next.has(p)
                || next.keeps(p) by {
                assert(self.has(p) || self.keeps(p));
            }
        }
    }

    /// The range that starts at an acknowledged position is the one that was acknowledged.
    proof fn lemma_ack_place(self, ack: AckSent)
        requires
            self.connection().valid(),
            near(ack.at as int, self.released()),
            has_range(self.sender.window.unacked, advance(0, ack.at as int)),
        ensures
            ({
                let index = range_index(self.sender.window.unacked, advance(0, ack.at as int));
                ack.at == self.range_start(index)
            }),
    {
        let window = self.sender.window;
        let start = advance(0, ack.at as int);
        let index = range_index(window.unacked, start);
        let at = self.range_start(index);
        assert(0 <= index < window.unacked.len() && window.unacked[index].0 == start);
        assert(window.offset(window.unacked[index].0) < window.offset(window.unacked[index].1));
        window.lemma_unacked_start(self.written, 0);
        lemma_steps(window.unacked_start(), start);
        lemma_advance_twice(0, self.released(), window.offset(start));
        assert(start == advance(0, at));
        assert((ack.at as int) % 0x1_0000_0000 == at % 0x1_0000_0000);
    }

    /// An acknowledgement leaves each unacked range in its place, or takes from it what it
    /// acknowledges.
    #[verifier::rlimit(40)]
    proof fn lemma_acked_ranges(self, next: Flow<I>, ack: AckSent, p: int)
        requires
            self.valid(),
            near(ack.at as int, self.released()),
            0 < ack.len <= MAX_DATA_LEN,
            ({
                let start = advance(0, ack.at as int);
                let end = advance(start, ack.len as int);
                &&& self.sender.window.acks(start, end)
                &&& next.sender.window == self.sender.window.acked(start, end)
            }),
            next.written == self.written,
            self.keeps(p),
        ensures
            next.keeps(p) || ack.at <= p < ack.at + ack.len,
    {
        let start = advance(0, ack.at as int);
        let end = advance(start, ack.len as int);
        let window = self.sender.window;
        let after = next.sender.window;
        let acked = range_index(window.unacked, start);
        let range_end = window.unacked[acked].1;
        assert(0 <= acked < window.unacked.len() && window.unacked[acked].0 == start);
        window.lemma_acked_valid(start, end);
        window.lemma_acks_near(start, end);
        self.lemma_ack_place(ack);
        lemma_advance(start, ack.len as int);
        let freed = window.sent.len() - after.sent.len();
        assert(next.released() == self.released() + freed);
        let index = choose|index: int| #[trigger] self.holds(index, p);
        if index == acked && end == range_end {
        } else if index == acked {
            assert(after.unacked[index] == (end, range_end));
            assert(next.holds(index, p) || p < ack.at + ack.len);
        } else {
            let j = if end == range_end && index > acked {
                index - 1
            } else {
                index
            };
            assert(after.unacked[j] == window.unacked[index]);
            assert(next.holds(j, p));
        }
    }

    /// The unacked ranges still fit into packets after an acknowledgement.
    #[verifier::rlimit(40)]
    proof fn lemma_acked_fits(self, start: StreamPos, end: StreamPos)
        requires
            self.valid(),
            self.sender.window.acks(start, end),
        ensures
            self.sender.after_ack(start, end).consistent(),
            ({
                let unacked = self.sender.window.acked(start, end).unacked;
                forall|i: int|
                    #![trigger unacked[i]]
                    0 <= i < unacked.len() ==> steps(unacked[i].0, unacked[i].1) <= MAX_DATA_LEN
            }),
    {
        let window = self.sender.window;
        let after = window.acked(start, end);
        let acked = range_index(window.unacked, start);
        let range_end = window.unacked[acked].1;
        assert(0 <= acked < window.unacked.len() && window.unacked[acked].0 == start);
        window.lemma_acked_valid(start, end);
        window.lemma_acks_near(start, end);
        assert forall|i: int|
            #![trigger after.unacked[i]]
            0 <= i < after.unacked.len() implies steps(after.unacked[i].0, after.unacked[i].1)
            <= MAX_DATA_LEN by {
            if end == range_end {
                let j = if i < acked {
                    i
                } else {
                    i + 1
                };
                assert(after.unacked[i] == window.unacked[j]);
            } else if i != acked {
                assert(after.unacked[i] == window.unacked[i]);
            } else {
                assert(after.unacked[i] == (end, range_end));
                assert(steps(window.unacked[acked].0, window.unacked[acked].1) <= MAX_DATA_LEN);
            }
        }
    }

    #[verifier::rlimit(40)]
    proof fn lemma_read(self, n: nat)
        requires
            self.valid(),
            self.can(Move::Read(n)),
        ensures
            self.after(Move::Read(n)).valid(),
    {
        let next = self.after(Move::Read(n));
        self.connection().lemma_step(Step::Read(n));
        assert(next.connection() == self.connection().after(Step::Read(n)));
        assert(next.ready_len() == self.ready_len());
        assert forall|p: int| self.has(p) implies #[trigger] next.has(p) by {
            if p >= self.ready_len() {
                assert(next.recv.ahead[p - self.ready_len()] == self.recv.ahead[p
                    - self.ready_len()]);
            }
        }
        assert forall|k: int| 0 <= k < next.acks.len() implies next.admits(
            #[trigger] next.acks[k],
        ) by {
            let ack = self.acks[k];
            assert(self.admits(ack));
            assert forall|p: int| ack.at <= p < ack.at + ack.len implies #[trigger] next.has(p) by {
                assert(self.has(p));
            }
        }
        assert forall|k: int| 0 <= k < next.data.len() implies next.carries(
            #[trigger] next.data[k],
        ) by {
            assert(self.carries(self.data[k]));
        }
        self.lemma_same_sender(next);
        assert forall|p: int| 0 <= p < next.sent_len() implies #[trigger] next.has(p) || next.keeps(
            p,
        ) by {
            assert(self.has(p) || self.keeps(p));
        }
    }

    /// Every move keeps the state valid.
    #[verifier::rlimit(40)]
    pub proof fn lemma_move(self, m: Move<I>)
        requires
            self.valid(),
            self.can(m),
        ensures
            self.after(m).valid(),
    {
        match m {
            Move::Write(data) => {
                self.lemma_write(data);
            },
            Move::Send { limit, now } => {
                self.lemma_send(limit, now);
            },
            Move::Resend { index, now } => {
                self.lemma_resend(index, now);
            },
            Move::Believe(available) => {
                let next = self.after(m);
                assert(next.connection() == self.connection());
                self.lemma_same_receiver(next);
                self.lemma_same_sender(next);
                assert forall|k: int| 0 <= k < next.data.len() implies next.carries(
                    #[trigger] next.data[k],
                ) by {
                    assert(self.carries(self.data[k]));
                }
                assert forall|p: int| 0 <= p < next.sent_len() implies #[trigger] next.has(p)
                    || next.keeps(p) by {
                    assert(self.has(p) || self.keeps(p));
                }
            },
            Move::DataArrives(i) => {
                self.lemma_data_arrives(i);
            },
            Move::AckArrives(i) => {
                self.lemma_ack_arrives(i);
            },
            Move::Read(n) => {
                self.lemma_read(n);
            },
        }
    }

    /// Two channels that were just opened are in agreement.
    proof fn lemma_start(capacity: nat, window: nat, init_send: nat)
        requires
            0 < capacity <= MAX_DISTANCE,
            0 < window <= MAX_DISTANCE,
        ensures
            Flow::<I>::start(capacity, window, init_send).valid(),
    {
        let start = Flow::<I>::start(capacity, window, init_send);
        law_delivery_in_order(capacity, window, 0, Seq::empty());
        assert(start.connection() == Connection::start(capacity, window, 0));
        assert(start.sent_len() == 0);
    }
}

/// A reliable channel delivers in order and loses nothing: whatever packets are lost, duplicated or
/// reordered on the way, after any moves that can happen the bytes that were read are the first bytes
/// that were written, in the same order, and every byte that was sent either has arrived or is kept in
/// order to be sent again.
pub proof fn law_reliable_delivery<I>(
    capacity: nat,
    window: nat,
    init_send: nat,
    moves: Seq<Move<I>>,
)
    requires
        0 < capacity <= MAX_DISTANCE,
        0 < window <= MAX_DISTANCE,
        Flow::<I>::start(capacity, window, init_send).can_all(moves),
    ensures
        ({
            let end = Flow::<I>::start(capacity, window, init_send).after_all(moves);
            &&& end.valid()
            &&& end.delivered == end.written.take(end.delivered.len() as int)
            &&& forall|p: int| 0 <= p < end.sent_len() ==> #[trigger] end.has(p) || end.keeps(p)
        }),
    decreases moves.len(),
{
    let start = Flow::<I>::start(capacity, window, init_send);
    if moves.len() == 0 {
        Flow::<I>::lemma_start(capacity, window, init_send);
    } else {
        law_reliable_delivery(capacity, window, init_send, moves.drop_last());
        start.after_all(moves.drop_last()).lemma_move(moves.last());
    }
}

/// Sending again what was not acknowledged makes the stream go on: as long as not everything that was
/// sent is ready and the receive window has room, the next byte of the stream lies in an unacked
/// range, and the packet that sends this range again makes that byte ready.
///
/// The receive window must be smaller than half of all stream positions by the data of a packet.
pub proof fn law_resend_makes_progress<I>(flow: Flow<I>)
    requires
        flow.valid(),
        flow.ready_len() < flow.sent_len(),
        0 < flow.recv.ahead.len(),
        flow.recv.ahead.len() + MAX_DATA_LEN <= MAX_DISTANCE,
    ensures
        exists|index: int|
            {
                &&& #[trigger] flow.holds(index, flow.ready_len())
                &&& flow.after_data(
                    DataSent {
                        at: flow.range_start(index) as nat,
                        packet: flow.sender.resend_packet(index),
                    },
                ).ready_len() > flow.ready_len()
            },
{
    let reached = flow.ready_len();
    assert(!flow.has(reached));
    let index = choose|index: int| #[trigger] flow.holds(index, reached);
    let at = flow.range_start(index);
    let len = flow.range_end(index) - at;
    let sent = DataSent { at: at as nat, packet: flow.sender.resend_packet(index) };
    let start = advance(0, at);
    let data = flow.written.subrange(at, at + len);
    flow.lemma_resend_carries(index);
    law_parse_data_packet(start, data);
    lemma_advance_twice(0, reached, at - reached);
    lemma_order_from_base(0, reached, at);
    assert(flow.recv.offset(start) == at - reached);
    law_receive_progress(flow.recv, start, data);
    assert(flow.after_data(sent).recv == flow.recv.received(start, data));
}

} // verus!
