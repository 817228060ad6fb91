//! Which acknowledgements tell the round trip time: those of data that was transmitted once.

use vstd::prelude::*;

use crate::reliable_channel::reliability::{DataSent, Flow, Move};
use crate::reliable_channel::UnackedRange;
use crate::windows::send::{law_ack_once, range_index, SendView};
use crate::windows::stream::{
    advance, lemma_advance, lemma_advance_twice, StreamPos, MAX_DISTANCE,
};

verus! {

/// A data packet carries the byte `p` of the stream.
pub open spec fn carries_byte(sent: DataSent, p: int) -> bool {
    sent.at <= p < sent.at + sent.packet.len() - 6
}

/// A flow, and the instants at which its data packets were transmitted.
pub struct Timed<I> {
    pub flow: Flow<I>,
    pub times: Seq<I>,
}

impl<I> Timed<I> {
    /// Two channels that were just opened.
    pub open spec fn start(capacity: nat, window: nat, init_send: nat) -> Timed<I> {
        Timed { flow: Flow::start(capacity, window, init_send), times: Seq::empty() }
    }

    /// The state after `m`.
    pub open spec fn after(self, m: Move<I>) -> Timed<I> {
        Timed {
            flow: self.flow.after(m),
            times: match m {
                Move::Send { limit, now } => self.times.push(now),
                Move::Resend { index, now } => self.times.push(now),
                _ => self.times,
            },
        }
    }

    /// The state after all of `moves`.
    pub open spec fn after_all(self, moves: Seq<Move<I>>) -> Timed<I>
        decreases moves.len(),
    {
        if moves.len() == 0 {
            self
        } else {
            self.after_all(moves.drop_last()).after(moves.last())
        }
    }

    /// The byte `p` of the stream was transmitted once, as the first byte of the data packet `k`.
    pub open spec fn transmitted_once(self, p: int, k: int) -> bool {
        &&& 0 <= k < self.flow.data.len()
        &&& self.flow.data[k].at == p
        &&& carries_byte(self.flow.data[k], p)
        &&& forall|j: int| #![trigger self.flow.data[j]]
            0 <= j < self.flow.data.len() && carries_byte(self.flow.data[j], p) ==> j == k
    }

    /// Some data packet carries the whole range from `low` to `high`.
    spec fn transmitted(self, low: int, high: int) -> bool {
        exists|k: int| #![trigger self.flow.data[k]]
            0 <= k < self.flow.data.len() && self.flow.data[k].at <= low && high
                <= self.flow.data[k].at + self.flow.data[k].packet.len() - 6
    }

    /// What is known of a range from `low` to `high` tells how it was transmitted.
    spec fn describes(self, range: UnackedRange<I>, low: int, high: int) -> bool {
        &&& low < high
        &&& self.transmitted(low, high)
        &&& range.retransmit ==> forall|k: int| !#[trigger] self.transmitted_once(low, k)
        &&& !range.retransmit ==> exists|k: int| #[trigger]
            self.transmitted_once(low, k) && range.last_sent == Some(self.times[k])
    }

    /// What is known of each unacked range tells how it was transmitted.
    spec fn valid(self) -> bool {
        &&& self.flow.valid()
        &&& self.times.len() == self.flow.data.len()
        &&& forall|i: int| #![trigger self.flow.sender.unacked[i]]
            0 <= i < self.flow.sender.unacked.len() ==> self.describes(
                self.flow.sender.unacked[i],
                self.flow.range_start(i),
                self.flow.range_end(i),
            )
    }

    /// Transmitting another packet does not touch a range that the packet carries nothing of.
    proof fn lemma_untouched(
        self,
        next: Timed<I>,
        range: UnackedRange<I>,
        low: int,
        high: int,
    )
        requires
            self.describes(range, low, high),
            self.times.len() == self.flow.data.len(),
            next.flow.data.len() == self.flow.data.len() + 1,
            next.times.len() == self.times.len() + 1,
            next.flow.data.drop_last() == self.flow.data,
            next.times.drop_last() == self.times,
            !carries_byte(next.flow.data.last(), low),
        ensures
            next.describes(range, low, high),
    {
        let n = self.flow.data.len() as int;
        assert forall|k: int| 0 <= k < n implies #[trigger] next.flow.data[k] == self.flow.data[k]
            && next.times[k] == self.times[k] by {
            assert(next.flow.data.drop_last()[k] == next.flow.data[k]);
            assert(next.times.drop_last()[k] == next.times[k]);
        }
        let k = choose|k: int| #![trigger self.flow.data[k]]
            0 <= k < self.flow.data.len() && self.flow.data[k].at <= low && high
                <= self.flow.data[k].at + self.flow.data[k].packet.len() - 6;
        assert(next.flow.data[k] == self.flow.data[k]);
        assert forall|k: int| #[trigger] next.transmitted_once(low, k) == self.transmitted_once(
            low,
            k,
        ) by {
            if next.transmitted_once(low, k) {
                assert(k != n);
                assert forall|j: int| #![trigger self.flow.data[j]]
                    0 <= j < self.flow.data.len() && carries_byte(self.flow.data[j], low) implies j
                    == k by {
                    assert(next.flow.data[j] == self.flow.data[j]);
                }
            }
            if self.transmitted_once(low, k) {
                assert forall|j: int| #![trigger next.flow.data[j]]
                    0 <= j < next.flow.data.len() && carries_byte(next.flow.data[j], low) implies j
                    == k by {
                    assert(j != n);
                    assert(next.flow.data[j] == self.flow.data[j]);
                }
            }
        }
        if !range.retransmit {
            let k = choose|k: int| #[trigger]
                self.transmitted_once(low, k) && range.last_sent == Some(self.times[k]);
            assert(next.transmitted_once(low, k));
            assert(next.times[k] == self.times[k]);
        }
    }

    #[verifier::rlimit(60)]
    proof fn lemma_send(self, limit: nat, now: I)
        requires
            self.valid(),
            self.flow.can(Move::Send { limit, now }),
        ensures
            self.after(Move::Send { limit, now }).valid(),
    {
        let m = Move::Send { limit, now };
        let next = self.after(m);
        let window = self.flow.sender.window;
        let after = next.flow.sender.window;
        self.flow.lemma_move(m);
        assert(next.flow.data.drop_last() =~= self.flow.data);
        assert(next.times.drop_last() =~= self.times);
        self.lemma_same_places(next.flow);
        assert forall|i: int| #![trigger next.flow.sender.unacked[i]]
            0 <= i < next.flow.sender.unacked.len() implies next.describes(
            next.flow.sender.unacked[i],
            next.flow.range_start(i),
            next.flow.range_end(i),
        ) by {
            if i < self.flow.sender.unacked.len() {
                assert(next.flow.sender.unacked[i] == self.flow.sender.unacked[i]);
                assert(after.unacked[i] == window.unacked[i]);
                self.lemma_range_sent(i);
                self.lemma_untouched(
                    next,
                    self.flow.sender.unacked[i],
                    self.flow.range_start(i),
                    self.flow.range_end(i),
                );
            } else {
                self.lemma_sent_range(limit, now);
            }
        }
    }

    /// The range of the next data packet is transmitted once, by that packet.
    #[verifier::rlimit(60)]
    proof fn lemma_sent_range(self, limit: nat, now: I)
        requires
            self.flow.sender.window.sends(self.flow.written, 0),
            self.flow.sender.consistent(),
            forall|k: int|
                0 <= k < self.flow.data.len() ==> self.flow.carries(#[trigger] self.flow.data[k]),
            self.times.len() == self.flow.data.len(),
            self.flow.can(Move::Send { limit, now }),
        ensures
            ({
                let next = self.after(Move::Send { limit, now });
                let i = self.flow.sender.unacked.len() as int;
                next.describes(
                    next.flow.sender.unacked[i],
                    next.flow.range_start(i),
                    next.flow.range_end(i),
                )
            }),
    {
        let next = self.after(Move::Send { limit, now });
        let i = self.flow.sender.unacked.len() as int;
        let n = self.flow.sender.next_amount(limit) as int;
        let window = self.flow.sender.window;
        let after = next.flow.sender.window;
        let reached = self.flow.sent_len();
        let last = self.flow.data.len() as int;
        let range = next.flow.sender.unacked[i];
        assert(next.flow.data.last().packet.len() == 6 + n);
        assert(after.unacked[i] == (range.start, range.end));
        lemma_advance(window.unacked_start(), window.sent.len() as int);
        lemma_advance(window.unacked_start(), window.sent.len() + n);
        lemma_advance_twice(
            window.send_pos,
            -(window.sent.len() as int),
            window.sent.len() as int,
        );
        lemma_advance_twice(window.send_pos, -(window.sent.len() as int), window.sent.len() + n);
        lemma_advance_twice(window.send_pos, n, -(window.sent.len() + n));
        assert(after.unacked_start() == window.unacked_start());
        assert(next.flow.released() == self.flow.released());
        assert(next.flow.range_start(i) == reached);
        assert(next.flow.range_end(i) == reached + n);
        assert(next.flow.data[last].at == reached);
        assert forall|j: int| #![trigger next.flow.data[j]]
            0 <= j < next.flow.data.len() && carries_byte(next.flow.data[j], reached) implies j
            == last by {
            if j < last {
                assert(next.flow.data[j] == self.flow.data[j]);
                assert(self.flow.carries(self.flow.data[j]));
            }
        }
        assert(next.transmitted_once(reached, last));
        assert(next.times[last] == now);
    }

    /// An unacked range lies within what was sent.
    proof fn lemma_range_sent(self, i: int)
        requires
            self.flow.valid(),
            0 <= i < self.flow.sender.unacked.len(),
        ensures
            0 <= self.flow.range_start(i) < self.flow.range_end(i) <= self.flow.sent_len(),
    {
        self.flow.lemma_resend_carries(i);
        let sent = DataSent {
            at: self.flow.range_start(i) as nat,
            packet: self.flow.sender.resend_packet(i),
        };
        assert(self.flow.carries(sent));
    }

    /// Where a range lies does not depend on data that was sent after it.
    #[verifier::rlimit(40)]
    proof fn lemma_same_places(self, next: Flow<I>)
        requires
            self.flow.sender.window.sends(self.flow.written, 0),
            next.sender.window.sends(next.written, 0),
            next.written == self.flow.written,
            next.sender.window.capacity == self.flow.sender.window.capacity,
            next.sender.window.sent + next.sender.window.pending == self.flow.sender.window.sent
                + self.flow.sender.window.pending,
        ensures
            next.released() == self.flow.released(),
            forall|p: StreamPos| #[trigger] next.sender.window.offset(p)
                == self.flow.sender.window.offset(p),
    {
        let window = self.flow.sender.window;
        assert((window.sent + window.pending).len() == window.sent.len() + window.pending.len());
        assert((next.sender.window.sent + next.sender.window.pending).len()
            == next.sender.window.sent.len() + next.sender.window.pending.len());
        self.flow.sender.window.lemma_unacked_start(self.flow.written, 0);
        next.sender.window.lemma_unacked_start(next.written, 0);
    }

    #[verifier::rlimit(60)]
    proof fn lemma_resend(self, index: nat, now: I)
        requires
            self.valid(),
            self.flow.can(Move::Resend { index, now }),
        ensures
            self.after(Move::Resend { index, now }).valid(),
    {
        let m = Move::Resend { index, now };
        let next = self.after(m);
        let last = self.flow.data.len() as int;
        let at = self.flow.range_start(index as int);
        self.flow.lemma_move(m);
        self.flow.lemma_resend_carries(index as int);
        assert(next.flow.data.drop_last() =~= self.flow.data);
        assert(next.times.drop_last() =~= self.times);
        assert forall|i: int| #![trigger next.flow.sender.unacked[i]]
            0 <= i < next.flow.sender.unacked.len() implies next.describes(
            next.flow.sender.unacked[i],
            next.flow.range_start(i),
            next.flow.range_end(i),
        ) by {
            let low = self.flow.range_start(i);
            let high = self.flow.range_end(i);
            assert(next.flow.range_start(i) == low && next.flow.range_end(i) == high);
            assert(self.describes(self.flow.sender.unacked[i], low, high));
            if i != index {
                self.lemma_apart(i, index as int);
                self.lemma_untouched(next, self.flow.sender.unacked[i], low, high);
            } else {
                let k = choose|k: int| #![trigger self.flow.data[k]]
                    0 <= k < self.flow.data.len() && self.flow.data[k].at <= low && high
                        <= self.flow.data[k].at + self.flow.data[k].packet.len() - 6;
                assert(next.flow.data[k] == self.flow.data[k]);
                assert(next.flow.data[last].at == at);
                assert(carries_byte(next.flow.data[k], low));
                assert(carries_byte(next.flow.data[last], low));
                assert forall|j: int| !#[trigger] next.transmitted_once(low, j) by {
                }
            }
        }
    }

    /// No range holds the first byte of another one.
    proof fn lemma_apart(self, i: int, j: int)
        requires
            self.flow.valid(),
            0 <= i < self.flow.sender.unacked.len(),
            0 <= j < self.flow.sender.unacked.len(),
            i != j,
        ensures
            !(self.flow.range_start(j) <= self.flow.range_start(i) < self.flow.range_end(j)),
    {
        self.lemma_range_sent(i);
        self.lemma_range_sent(j);
        let unacked = self.flow.sender.window.unacked;
        if i < j {
            assert(self.flow.range_end(i) <= self.flow.range_start(j));
        } else {
            assert(self.flow.range_end(j) <= self.flow.range_start(i));
        }
    }

    /// An acknowledgement keeps what the range at `j` of those that are left tells.
    #[verifier::rlimit(40)]
    proof fn lemma_ack_leaves(self, next: Timed<I>, start: StreamPos, end: StreamPos, j: int)
        requires
            self.flow.sender.window.valid(),
            self.flow.sender.consistent(),
            self.flow.sender.window.acks(start, end),
            next.flow.sender == self.flow.sender.after_ack(start, end),
            next.flow.written == self.flow.written,
            next.flow.data == self.flow.data,
            next.times == self.times,
            0 <= j < next.flow.sender.unacked.len(),
            forall|i: int| #![trigger self.flow.sender.unacked[i]]
                0 <= i < self.flow.sender.unacked.len() ==> self.describes(
                    self.flow.sender.unacked[i],
                    self.flow.range_start(i),
                    self.flow.range_end(i),
                ),
        ensures
            next.describes(
                next.flow.sender.unacked[j],
                next.flow.range_start(j),
                next.flow.range_end(j),
            ),
    {
        let window = self.flow.sender.window;
        let (i, rest) = lemma_acked_place(window, start, end, j);
        let low = self.flow.range_start(i);
        let high = self.flow.range_end(i);
        assert(self.describes(self.flow.sender.unacked[i], low, high));
        assert(next.flow.released() == self.flow.released() + window.sent.len()
            - next.flow.sender.window.sent.len());
        assert(next.flow.range_end(j) == high);
        if rest {
            assert(low < next.flow.range_start(j) < high);
            self.lemma_rest(
                next,
                next.flow.sender.unacked[j],
                low,
                high,
                next.flow.range_start(j),
            );
        } else {
            assert(next.flow.range_start(j) == low);
            assert(next.flow.sender.unacked[j] == self.flow.sender.unacked[i]);
            self.lemma_same_data(next, self.flow.sender.unacked[i], low, high);
        }
    }

    proof fn lemma_ack(self, m: Move<I>, start: StreamPos, end: StreamPos)
        requires
            self.valid(),
            self.flow.can(m),
            m is AckArrives,
            self.after(m).flow == (Flow {
                sender: self.flow.sender.after_ack(start, end),
                ..self.flow
            }),
        ensures
            self.after(m).valid(),
    {
        let next = self.after(m);
        let window = self.flow.sender.window;
        self.flow.lemma_move(m);
        if window.acks(start, end) {
            assert forall|j: int| #![trigger next.flow.sender.unacked[j]]
                0 <= j < next.flow.sender.unacked.len() implies next.describes(
                next.flow.sender.unacked[j],
                next.flow.range_start(j),
                next.flow.range_end(j),
            ) by {
                self.lemma_ack_leaves(next, start, end, j);
            }
        } else {
            law_ack_once(window, start, end);
            assert(next.flow.sender.window == window);
            assert forall|j: int| #![trigger next.flow.sender.unacked[j]]
                0 <= j < next.flow.sender.unacked.len() implies next.describes(
                next.flow.sender.unacked[j],
                next.flow.range_start(j),
                next.flow.range_end(j),
            ) by {
                assert(next.flow.sender.unacked[j] == self.flow.sender.unacked[j]);
                self.lemma_same_data(
                    next,
                    self.flow.sender.unacked[j],
                    self.flow.range_start(j),
                    self.flow.range_end(j),
                );
            }
        }
    }

    /// What a range tells depends on what was transmitted alone.
    proof fn lemma_same_data(self, next: Timed<I>, range: UnackedRange<I>, low: int, high: int)
        requires
            self.describes(range, low, high),
            next.flow.data == self.flow.data,
            next.times == self.times,
        ensures
            next.describes(range, low, high),
    {
        let k = choose|k: int| #![trigger self.flow.data[k]]
            0 <= k < self.flow.data.len() && self.flow.data[k].at <= low && high
                <= self.flow.data[k].at + self.flow.data[k].packet.len() - 6;
        assert(next.flow.data[k] == self.flow.data[k]);
        assert forall|k: int| #[trigger] next.transmitted_once(low, k) == self.transmitted_once(
            low,
            k,
        ) by {
            if next.transmitted_once(low, k) {
                assert forall|j: int| #![trigger self.flow.data[j]]
                    0 <= j < self.flow.data.len() && carries_byte(self.flow.data[j], low) implies j
                    == k by {
                    assert(next.flow.data[j] == self.flow.data[j]);
                }
            }
            if self.transmitted_once(low, k) {
                assert forall|j: int| #![trigger next.flow.data[j]]
                    0 <= j < next.flow.data.len() && carries_byte(next.flow.data[j], low) implies j
                    == k by {
                    assert(next.flow.data[j] == self.flow.data[j]);
                }
            }
        }
        if !range.retransmit {
            let k = choose|k: int| #[trigger]
                self.transmitted_once(low, k) && range.last_sent == Some(self.times[k]);
            assert(next.transmitted_once(low, k));
        }
    }

    /// The rest of a range that is acknowledged in part does not start where the packet that carries it
    /// starts.
    proof fn lemma_rest(
        self,
        next: Timed<I>,
        rest: UnackedRange<I>,
        low: int,
        high: int,
        middle: int,
    )
        requires
            self.transmitted(low, high),
            low < middle < high,
            rest.retransmit,
            next.flow.data == self.flow.data,
        ensures
            next.describes(rest, middle, high),
    {
        let k = choose|k: int| #![trigger self.flow.data[k]]
            0 <= k < self.flow.data.len() && self.flow.data[k].at <= low && high
                <= self.flow.data[k].at + self.flow.data[k].packet.len() - 6;
        assert(next.flow.data[k] == self.flow.data[k]);
        assert(carries_byte(next.flow.data[k], middle));
        assert forall|j: int| !#[trigger] next.transmitted_once(middle, j) by {
        }
    }

    proof fn lemma_move(self, m: Move<I>)
        requires
            self.valid(),
            self.flow.can(m),
        ensures
            self.after(m).valid(),
    {
        let next = self.after(m);
        match m {
            Move::Send { limit, now } => {
                self.lemma_send(limit, now);
            },
            Move::Resend { index, now } => {
                self.lemma_resend(index, now);
            },
            Move::AckArrives(i) => {
                let ack = self.flow.acks[i as int];
                assert(self.flow.admits(ack));
                let start = advance(0, ack.at as int);
                let end = advance(start, ack.len as int);
                self.lemma_ack(m, start, end);
            },
            _ => {
                self.flow.lemma_move(m);
                if m is Write {
                    assert(next.flow.sender.window.unacked_start()
                        == self.flow.sender.window.unacked_start());
                    assert(next.flow.released() == self.flow.released());
                }
                assert forall|j: int| #![trigger next.flow.sender.unacked[j]]
                    0 <= j < next.flow.sender.unacked.len() implies next.describes(
                    next.flow.sender.unacked[j],
                    next.flow.range_start(j),
                    next.flow.range_end(j),
                ) by {
                    assert(next.flow.sender.unacked[j] == self.flow.sender.unacked[j]);
                    assert(next.flow.range_start(j) == self.flow.range_start(j));
                    assert(next.flow.range_end(j) == self.flow.range_end(j));
                    self.lemma_same_data(
                        next,
                        self.flow.sender.unacked[j],
                        self.flow.range_start(j),
                        self.flow.range_end(j),
                    );
                }
            },
        }
    }
}

/// The range that is at `j` after an acknowledgement was at `i` before it. Either it is as it was, or
/// it is the rest of the range that is acknowledged in part.
proof fn lemma_acked_place(window: SendView, start: StreamPos, end: StreamPos, j: int) -> (place: (
    int,
    bool,
))
    requires
        window.valid(),
        window.acks(start, end),
        0 <= j < window.acked(start, end).unacked.len(),
    ensures
        ({
            let (i, rest) = place;
            let after = window.acked(start, end);
            let acked = range_index(window.unacked, start);
            let freed = window.sent.len() - after.sent.len();
            &&& 0 <= i < window.unacked.len()
            &&& rest == (i == acked && end != window.unacked[acked].1)
            &&& i == if end == window.unacked[acked].1 && j >= acked {
                j + 1
            } else {
                j
            }
            &&& after.offset(after.unacked[j].1) + freed == window.offset(window.unacked[i].1)
            &&& after.offset(after.unacked[j].0) < after.offset(after.unacked[j].1)
            &&& rest ==> window.offset(start) < after.offset(after.unacked[j].0) + freed
            &&& !rest ==> after.unacked[j] == window.unacked[i]
            &&& !rest ==> after.offset(after.unacked[j].0) + freed == window.offset(
                window.unacked[i].0,
            )
            &&& window.unacked[acked].0 == start
        }),
{
    let after = window.acked(start, end);
    let acked = range_index(window.unacked, start);
    let range_end = window.unacked[acked].1;
    assert(0 <= acked < window.unacked.len() && window.unacked[acked].0 == start);
    window.lemma_acked_valid(start, end);
    window.lemma_acks_near(start, end);
    let i = if end == range_end && j >= acked {
        j + 1
    } else {
        j
    };
    let rest = i == acked && end != range_end;
    if rest {
        assert(after.unacked[j] == (end, range_end));
    } else {
        assert(after.unacked[j] == window.unacked[i]);
    }
    (i, rest)
}

proof fn lemma_timed<I>(capacity: nat, window: nat, init_send: nat, moves: Seq<Move<I>>)
    requires
        0 < capacity <= MAX_DISTANCE,
        0 < window <= MAX_DISTANCE,
        Flow::<I>::start(capacity, window, init_send).can_all(moves),
    ensures
        Timed::<I>::start(capacity, window, init_send).after_all(moves).valid(),
        Timed::<I>::start(capacity, window, init_send).after_all(moves).flow == Flow::<I>::start(
            capacity,
            window,
            init_send,
        ).after_all(moves),
    decreases moves.len(),
{
    let start = Timed::<I>::start(capacity, window, init_send);
    if moves.len() == 0 {
        crate::reliable_channel::reliability::law_reliable_delivery(
            capacity,
            window,
            init_send,
            moves,
        );
    } else {
        lemma_timed(capacity, window, init_send, moves.drop_last());
        start.after_all(moves.drop_last()).lemma_move(moves.last());
    }
}

/// An acknowledgement tells the round trip time exactly if the data that it starts with was transmitted
/// once, as the start of a packet: it then tells the instant of that transmission, whether it
/// acknowledges all or a part of the packet. It tells nothing if the data was transmitted again, if it
/// is the rest of a packet that was acknowledged in part before, or if it acknowledges nothing.
pub proof fn law_ack_tells_round_trip<I>(
    capacity: nat,
    window: nat,
    init_send: nat,
    moves: Seq<Move<I>>,
    start: StreamPos,
    end: StreamPos,
)
    requires
        0 < capacity <= MAX_DISTANCE,
        0 < window <= MAX_DISTANCE,
        Flow::<I>::start(capacity, window, init_send).can_all(moves),
    ensures
        ({
            let timed = Timed::<I>::start(capacity, window, init_send).after_all(moves);
            let sender = timed.flow.sender;
            let first = timed.flow.released() + sender.window.offset(start);
            &&& timed.flow == Flow::<I>::start(capacity, window, init_send).after_all(moves)
            &&& timed.times.len() == timed.flow.data.len()
            &&& !sender.window.acks(start, end) ==> sender.timed_by(start, end) is None
            &&& sender.window.acks(start, end) ==> {
                &&& forall|k: int| #[trigger]
                    timed.transmitted_once(first, k) ==> sender.timed_by(start, end) == Some(
                        timed.times[k],
                    )
                &&& (forall|k: int| !#[trigger] timed.transmitted_once(first, k))
                    ==> sender.timed_by(start, end) is None
            }
        }),
{
    let timed = Timed::<I>::start(capacity, window, init_send).after_all(moves);
    let sender = timed.flow.sender;
    lemma_timed(capacity, window, init_send, moves);
    if sender.window.acks(start, end) {
        let i = range_index(sender.window.unacked, start);
        assert(0 <= i < sender.window.unacked.len() && sender.window.unacked[i].0 == start);
        assert(timed.describes(
            sender.unacked[i],
            timed.flow.range_start(i),
            timed.flow.range_end(i),
        ));
    }
}

} // verus!
