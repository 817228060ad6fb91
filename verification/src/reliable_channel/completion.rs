//! That a pair of reliable channels gets done: everything that was written is read in the end, as long
//! as packets keep arriving.

use vstd::prelude::*;

use crate::reliable_channel::reliability::{
    law_reliable_delivery, law_resend_makes_progress, Flow, Move,
};
use crate::reliable_channel::segment::{
    law_parse_data_packet, ACK_LEN, DATA_HEADER_LEN, MAX_DATA_LEN,
};
use crate::windows::recv::{law_receive_progress, lemma_run_is_prefix};
use crate::windows::stream::{
    advance, lemma_advance_twice, lemma_order_from_base, MAX_DISTANCE,
};

verus! {

impl<I> Flow<I> {
    /// The receive window is smaller than half of all stream positions by the data of a packet.
    pub open spec fn moderate(self) -> bool {
        self.recv.capacity() + MAX_DATA_LEN <= MAX_DISTANCE
    }

    /// The data packet at `i` carries the next byte that is not ready yet, and the receive window has
    /// room for it.
    pub open spec fn brings_next(self, i: nat) -> bool {
        &&& i < self.data.len()
        &&& self.data[i as int].at <= self.ready_len() < self.data[i as int].at
            + self.data[i as int].packet.len() - DATA_HEADER_LEN
        &&& 0 < self.recv.ahead.len()
    }

    /// How many times in `moves` a packet arrives that carries the next byte.
    pub open spec fn arrivals(self, moves: Seq<Move<I>>) -> nat
        decreases moves.len(),
    {
        if moves.len() == 0 {
            0
        } else {
            let before = self.after_all(moves.drop_last());
            self.arrivals(moves.drop_last()) + (if moves.last() matches Move::DataArrives(i)
                && before.brings_next(i) {
                1nat
            } else {
                0nat
            })
        }
    }

    /// A packet that carries the next byte makes it ready.
    proof fn lemma_next_arrives(self, i: nat)
        requires
            self.valid(),
            self.moderate(),
            self.brings_next(i),
        ensures
            self.can(Move::DataArrives(i)),
            self.after(Move::DataArrives(i)).ready_len() > self.ready_len(),
    {
        let reached = self.ready_len();
        let sent = self.data[i as int];
        let at = sent.at as int;
        let len = sent.packet.len() - DATA_HEADER_LEN;
        let start = advance(0, at);
        let data = self.written.subrange(at, at + len);
        assert(self.carries(sent));
        law_parse_data_packet(start, data);
        lemma_advance_twice(0, reached, at - reached);
        lemma_order_from_base(0, reached, at);
        assert(self.recv.offset(start) == at - reached);
        law_receive_progress(self.recv, start, data);
        assert(self.after_data(sent).recv == self.recv.received(start, data));
    }

    /// What is ready stays so until it is read, and the receive window stays as large as it is.
    proof fn lemma_keeps_progress(self, m: Move<I>)
        requires
            self.valid(),
            self.can(m),
        ensures
            self.after(m).ready_len() >= self.ready_len(),
            self.after(m).recv.capacity() == self.recv.capacity(),
            self.delivered.is_prefix_of(self.after(m).delivered),
            !(m is Write) ==> self.after(m).written == self.written,
    {
        match m {
            Move::DataArrives(i) => {
                let sent = self.data[i as int];
                let start = advance(0, sent.at as int);
                let len = sent.packet.len() - DATA_HEADER_LEN;
                let data = self.written.subrange(sent.at as int, sent.at + len);
                assert(self.carries(sent));
                law_parse_data_packet(start, data);
                let cells = self.recv.with_block(self.recv.offset(start), data);
                lemma_run_is_prefix(cells);
                assert(self.after_data(sent).recv == self.recv.received(start, data));
            },
            _ => {},
        }
    }

    /// What happens in `first` and then in `second` happens in both of them together.
    proof fn lemma_join(self, first: Seq<Move<I>>, second: Seq<Move<I>>)
        requires
            self.can_all(first),
            self.after_all(first).can_all(second),
        ensures
            self.can_all(first + second),
            self.after_all(first + second) == self.after_all(first).after_all(second),
        decreases second.len(),
    {
        let both = first + second;
        if second.len() == 0 {
            assert(both =~= first);
        } else {
            self.lemma_join(first, second.drop_last());
            assert(both.drop_last() =~= first + second.drop_last());
            assert(both.last() == second.last());
        }
    }

    /// One move that can happen.
    proof fn lemma_single(self, m: Move<I>)
        requires
            self.can(m),
        ensures
            self.can_all(seq![m]),
            self.after_all(seq![m]) == self.after(m),
    {
        let moves = seq![m];
        assert(moves.drop_last() =~= Seq::<Move<I>>::empty());
        assert(self.can_all(moves.drop_last()));
        assert(self.after_all(moves.drop_last()) == self);
    }

    /// `moves` can happen, write nothing, and lead to `end`.
    pub open spec fn leads(self, moves: Seq<Move<I>>, end: Flow<I>) -> bool {
        &&& self.can_all(moves)
        &&& self.after_all(moves) == end
        &&& forall|i: int| 0 <= i < moves.len() ==> !(#[trigger] moves[i] is Write)
    }

    proof fn lemma_lead_on(self, moves: Seq<Move<I>>, end: Flow<I>, m: Move<I>)
        requires
            self.leads(moves, end),
            end.can(m),
            !(m is Write),
        ensures
            self.leads(moves.push(m), end.after(m)),
    {
        end.lemma_single(m);
        self.lemma_join(moves, seq![m]);
        assert(moves + seq![m] =~= moves.push(m));
    }

    /// Moves that make the next byte ready, once everything that is ready has been read.
    #[verifier::rlimit(60)]
    proof fn lemma_next_move(self, now: I) -> (moves: Seq<Move<I>>)
        requires
            self.valid(),
            self.moderate(),
            self.ready_len() < self.written.len(),
            self.recv.ready.len() == 0,
        ensures
            self.leads(moves, self.after_all(moves)),
            self.after_all(moves).valid(),
            self.after_all(moves).written == self.written,
            self.after_all(moves).recv.capacity() == self.recv.capacity(),
            self.after_all(moves).ready_len() > self.ready_len(),
    {
        let none = Seq::<Move<I>>::empty();
        assert(self.leads(none, self));
        if self.ready_len() < self.sent_len() {
            law_resend_makes_progress(self);
            let index = choose|index: int| #[trigger] self.holds(index, self.ready_len());
            let resend = Move::Resend { index: index as nat, now };
            assert(self.can(resend));
            let again = self.after(resend);
            let i = self.data.len();
            self.lemma_resend_carries(index);
            self.lemma_move(resend);
            self.lemma_lead_on(none, self, resend);
            again.lemma_next_arrives(i);
            again.lemma_move(Move::DataArrives(i));
            again.lemma_keeps_progress(Move::DataArrives(i));
            self.lemma_lead_on(none.push(resend), again, Move::DataArrives(i));
            none.push(resend).push(Move::DataArrives(i))
        } else {
            let believe = Move::Believe(1);
            let told = self.after(believe);
            self.lemma_move(believe);
            self.lemma_lead_on(none, self, believe);
            let send = Move::Send { limit: ACK_LEN as nat, now };
            assert(told.can(send));
            let further = told.after(send);
            let i = self.data.len();
            told.lemma_move(send);
            told.lemma_keeps_progress(send);
            self.lemma_lead_on(none.push(believe), told, send);
            assert(further.data[i as int].at == self.sent_len());
            assert(further.carries(further.data[i as int]));
            further.lemma_next_arrives(i);
            further.lemma_move(Move::DataArrives(i));
            further.lemma_keeps_progress(Move::DataArrives(i));
            self.lemma_lead_on(none.push(believe).push(send), further, Move::DataArrives(i));
            none.push(believe).push(send).push(Move::DataArrives(i))
        }
    }

    /// Moves after which everything that was written has been read.
    proof fn lemma_finish(self, now: I) -> (moves: Seq<Move<I>>)
        requires
            self.valid(),
            self.moderate(),
        ensures
            self.leads(moves, self.after_all(moves)),
            self.after_all(moves).valid(),
            self.after_all(moves).written == self.written,
            self.after_all(moves).delivered == self.written,
        decreases self.written.len() - self.ready_len(),
    {
        let none = Seq::<Move<I>>::empty();
        let read = Move::Read(self.recv.ready.len());
        let empty = self.after(read);
        assert(self.leads(none, self));
        self.lemma_move(read);
        self.lemma_keeps_progress(read);
        self.lemma_lead_on(none, self, read);
        let first = none.push(read);
        if empty.ready_len() < empty.written.len() {
            let next = empty.lemma_next_move(now);
            let later = empty.after_all(next);
            let rest = later.lemma_finish(now);
            empty.lemma_join(next, rest);
            self.lemma_join(first, next + rest);
            let moves = first + (next + rest);
            assert forall|i: int| 0 <= i < moves.len() implies !(#[trigger] moves[i] is Write) by {
                if i >= first.len() {
                    let k = i - first.len();
                    assert(moves[i] == (if k < next.len() {
                        next[k]
                    } else {
                        rest[k - next.len()]
                    }));
                }
            }
            moves
        } else {
            assert(empty.delivered =~= empty.written);
            first
        }
    }
}

/// Everything that was written is read in the end: whatever has happened before, and whatever packets
/// were lost on the way, there are moves of the two channels after which all written bytes have been
/// read, in the order in which they were written. Nothing more needs to be written for that.
///
/// The receive window must be smaller than half of all stream positions by the data of a packet.
pub proof fn law_all_written_is_read<I>(
    capacity: nat,
    window: nat,
    init_send: nat,
    moves: Seq<Move<I>>,
    now: I,
)
    requires
        0 < capacity <= MAX_DISTANCE,
        0 < window,
        window + MAX_DATA_LEN <= MAX_DISTANCE,
        Flow::<I>::start(capacity, window, init_send).can_all(moves),
    ensures
        ({
            let start = Flow::<I>::start(capacity, window, init_send);
            let flow = start.after_all(moves);
            exists|more: Seq<Move<I>>, end: Flow<I>|
                {
                    &&& #[trigger] flow.leads(more, end)
                    &&& start.can_all(moves + more)
                    &&& end == start.after_all(moves + more)
                    &&& end.written == flow.written
                    &&& end.delivered == flow.written
                }
        }),
{
    let start = Flow::<I>::start(capacity, window, init_send);
    let flow = start.after_all(moves);
    law_reliable_delivery(capacity, window, init_send, moves);
    lemma_capacity_stays(start, moves, capacity, window, init_send);
    let more = flow.lemma_finish(now);
    start.lemma_join(moves, more);
    assert(flow.leads(more, flow.after_all(more)));
}

/// The receive window stays as large as it was at the start.
proof fn lemma_capacity_stays<I>(
    start: Flow<I>,
    moves: Seq<Move<I>>,
    capacity: nat,
    window: nat,
    init_send: nat,
)
    requires
        0 < capacity <= MAX_DISTANCE,
        0 < window <= MAX_DISTANCE,
        start == Flow::<I>::start(capacity, window, init_send),
        start.can_all(moves),
    ensures
        start.after_all(moves).recv.capacity() == window,
    decreases moves.len(),
{
    if moves.len() > 0 {
        lemma_capacity_stays(start, moves.drop_last(), capacity, window, init_send);
        law_reliable_delivery(capacity, window, init_send, moves.drop_last());
        start.after_all(moves.drop_last()).lemma_keeps_progress(moves.last());
    }
}

/// Every arrival of the next byte counts, and no progress is lost: over any moves the number of bytes
/// that are ready or were read grows at least by the number of times that a packet with the next byte
/// arrives while there is room for it. So as many arrivals as bytes were written are enough.
pub proof fn law_arrivals_add_up<I>(flow: Flow<I>, moves: Seq<Move<I>>)
    requires
        flow.valid(),
        flow.moderate(),
        flow.can_all(moves),
    ensures
        ({
            let end = flow.after_all(moves);
            &&& end.valid()
            &&& end.moderate()
            &&& end.ready_len() >= flow.ready_len() + flow.arrivals(moves)
            &&& flow.delivered.is_prefix_of(end.delivered)
            &&& flow.ready_len() + flow.arrivals(moves) >= end.written.len() ==> end.ready_len()
                == end.written.len()
        }),
    decreases moves.len(),
{
    let end = flow.after_all(moves);
    if moves.len() > 0 {
        let before = flow.after_all(moves.drop_last());
        let m = moves.last();
        law_arrivals_add_up(flow, moves.drop_last());
        before.lemma_move(m);
        before.lemma_keeps_progress(m);
        if let Move::DataArrives(i) = m {
            if before.brings_next(i) {
                before.lemma_next_arrives(i);
            }
        }
        assert(flow.delivered.is_prefix_of(end.delivered));
    }
}

} // verus!
