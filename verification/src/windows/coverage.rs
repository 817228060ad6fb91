//! What a receiving window makes ready: the longest run that the stored blocks cover.

use vstd::prelude::*;

use crate::windows::recv::{lemma_run_is_prefix, run, RecvView};
use crate::windows::stream::{
    advance, lemma_advance_twice, lemma_signed_steps, StreamPos, MAX_DISTANCE,
};

verus! {

/// A receiving window, what was read from it, and what it has stored.
pub struct Reception {
    pub window: RecvView,
    /// The number of bytes that were read.
    pub read: nat,
    /// Where each stored block starts and ends, counted from the start of the stream without
    /// wrapping around.
    pub stored: Seq<(int, int)>,
}

/// What can happen to a receiving window.
pub enum Event {
    /// A block is received at a position.
    Receive(StreamPos, Seq<u8>),
    /// Some ready bytes are read.
    Read(nat),
}

impl Reception {
    /// The window before anything has happened.
    pub open spec fn start(capacity: nat, origin: StreamPos) -> Reception {
        Reception {
            window: RecvView {
                recv_pos: origin,
                ready: Seq::empty(),
                ahead: Seq::new(capacity, |i: int| None),
            },
            read: 0,
            stored: Seq::empty(),
        }
    }

    /// The number of bytes that were ever ready to be read.
    pub open spec fn reached(self) -> int {
        (self.read + self.window.ready.len()) as int
    }

    /// The part of the stream that is stored of `len` bytes that are received at `pos`.
    pub open spec fn part(self, pos: StreamPos, len: nat) -> (int, int) {
        let first = self.reached() + self.window.offset(pos);
        (first, first + self.window.accepted_len(pos, len))
    }

    /// Whether `event` can happen.
    pub open spec fn can(self, event: Event) -> bool {
        match event {
            Event::Receive(pos, data) => data.len() <= MAX_DISTANCE,
            Event::Read(n) => n <= self.window.ready.len(),
        }
    }

    /// The window after `event`. A block is stored if its reception is reported.
    pub open spec fn after(self, event: Event) -> Reception {
        match event {
            Event::Receive(pos, data) => Reception {
                window: self.window.received(pos, data),
                stored: if self.window.accepted(pos, data.len()) is Some {
                    self.stored.push(self.part(pos, data.len()))
                } else {
                    self.stored
                },
                ..self
            },
            Event::Read(n) => Reception {
                window: self.window.reading(n),
                read: self.read + n,
                ..self
            },
        }
    }

    /// Every event of `events` can happen after those before it.
    pub open spec fn can_all(self, events: Seq<Event>) -> bool
        decreases events.len(),
    {
        events.len() == 0 || (self.can_all(events.drop_last()) && self.after_all(
            events.drop_last(),
        ).can(events.last()))
    }

    /// The window after all of `events`.
    pub open spec fn after_all(self, events: Seq<Event>) -> Reception
        decreases events.len(),
    {
        if events.len() == 0 {
            self
        } else {
            self.after_all(events.drop_last()).after(events.last())
        }
    }

    /// Some stored block holds the byte `k` of the stream.
    pub open spec fn covered(self, k: int) -> bool {
        exists|i: int| #![trigger self.stored[i]]
            0 <= i < self.stored.len() && self.stored[i].0 <= k < self.stored[i].1
    }

    /// What the window holds is what the stored blocks cover.
    pub open spec fn valid(self, origin: StreamPos) -> bool {
        &&& self.window.valid()
        &&& self.window.recv_pos == advance(origin, self.reached())
        &&& forall|k: int| 0 <= k < self.reached() ==> #[trigger] self.covered(k)
        &&& forall|k: int| #![trigger self.window.ahead[k]]
            0 <= k < self.window.ahead.len() ==> (self.window.ahead[k] is Some <==> self.covered(
                self.reached() + k,
            ))
        &&& forall|i: int| #![trigger self.stored[i]]
            0 <= i < self.stored.len() ==> self.stored[i].1 <= self.reached()
                + self.window.ahead.len()
    }

    proof fn lemma_receive(self, origin: StreamPos, pos: StreamPos, data: Seq<u8>)
        requires
            self.valid(origin),
        ensures
            self.after(Event::Receive(pos, data)).valid(origin),
    {
        let next = self.after(Event::Receive(pos, data));
        let offset = self.window.offset(pos);
        let part = self.part(pos, data.len());
        assert forall|k: int| #[trigger] next.covered(k) <==> self.covered(k) || part.0 <= k
            < part.1 by {
            if self.covered(k) {
                let i = choose|i: int| #![trigger self.stored[i]]
                    0 <= i < self.stored.len() && self.stored[i].0 <= k < self.stored[i].1;
                assert(next.stored[i] == self.stored[i]);
            }
            if part.0 <= k < part.1 {
                assert(next.stored[self.stored.len() as int] == part);
            }
            if next.covered(k) && !self.covered(k) {
                let i = choose|i: int| #![trigger next.stored[i]]
                    0 <= i < next.stored.len() && next.stored[i].0 <= k < next.stored[i].1;
                assert(i < self.stored.len() ==> next.stored[i] == self.stored[i]);
            }
        }
        if self.window.in_reach(pos) {
            let cells = self.window.with_block(offset, data);
            let n = run(cells);
            lemma_run_is_prefix(cells);
            lemma_advance_twice(origin, self.reached(), n as int);
            assert forall|k: int| 0 <= k < cells.len() implies (#[trigger] cells[k] is Some
                <==> next.covered(self.reached() + k)) by {
                assert(self.window.ahead[k] is Some <==> self.covered(self.reached() + k));
            }
            assert(next.reached() == self.reached() + n);
            assert forall|k: int| 0 <= k < next.reached() implies #[trigger] next.covered(k) by {
                if k >= self.reached() {
                    assert(cells[k - self.reached()] is Some);
                } else {
                    assert(self.covered(k));
                }
            }
            assert forall|k: int| 0 <= k < next.window.ahead.len() implies (
            #[trigger] next.window.ahead[k] is Some <==> next.covered(next.reached() + k)) by {
                assert(next.window.ahead[k] == cells[n + k]);
                assert(next.reached() + k == self.reached() + (n + k));
            }
        } else {
            assert(next.stored == self.stored);
        }
        assert forall|i: int| #![trigger next.stored[i]] 0 <= i < next.stored.len() implies
            next.stored[i].1 <= next.reached() + next.window.ahead.len() by {
            if i < self.stored.len() {
                assert(next.stored[i] == self.stored[i]);
            }
        }
    }

    proof fn lemma_read(self, origin: StreamPos, n: nat)
        requires
            self.valid(origin),
            n <= self.window.ready.len(),
        ensures
            self.after(Event::Read(n)).valid(origin),
    {
        let next = self.after(Event::Read(n));
        assert(next.reached() == self.reached());
        assert forall|k: int| #[trigger] next.covered(k) == self.covered(k) by {
            if self.covered(k) {
                let i = choose|i: int| #![trigger self.stored[i]]
                    0 <= i < self.stored.len() && self.stored[i].0 <= k < self.stored[i].1;
                assert(next.stored[i] == self.stored[i]);
            }
            if next.covered(k) {
                let i = choose|i: int| #![trigger next.stored[i]]
                    0 <= i < next.stored.len() && next.stored[i].0 <= k < next.stored[i].1;
                assert(self.stored[i] == next.stored[i]);
            }
        }
        assert forall|k: int| 0 <= k < next.window.ahead.len() implies (
        #[trigger] next.window.ahead[k] is Some <==> next.covered(next.reached() + k)) by {
            if k < self.window.ahead.len() {
                assert(self.window.ahead[k] is Some <==> self.covered(self.reached() + k));
            } else if next.covered(next.reached() + k) {
                let i = choose|i: int| #![trigger next.stored[i]]
                    0 <= i < next.stored.len() && next.stored[i].0 <= next.reached() + k
                        < next.stored[i].1;
                assert(self.stored[i].1 <= self.reached() + self.window.ahead.len());
            }
        }
    }
}

/// The part of the stream that is stored of a block is the one that is reported: it starts at the
/// position of the block and ends at the reported upper bound.
pub proof fn law_stored_part_is_reported(
    reception: Reception,
    origin: StreamPos,
    pos: StreamPos,
    data: Seq<u8>,
)
    requires
        reception.valid(origin),
    ensures
        ({
            let part = reception.part(pos, data.len());
            &&& pos == advance(origin, part.0)
            &&& reception.window.accepted(pos, data.len()) == (if part.0 < part.1 {
                Some(advance(origin, part.1))
            } else {
                None
            })
        }),
{
    let part = reception.part(pos, data.len());
    lemma_signed_steps(reception.window.recv_pos, pos);
    lemma_advance_twice(origin, reception.reached(), reception.window.offset(pos));
    lemma_advance_twice(origin, part.0, part.1 - part.0);
}

/// The bytes that are ready are the longest run that the stored blocks cover: after any events, every
/// byte from the next one to be read up to the end of the ready ones lies in a stored block, and the
/// one after them lies in none.
pub proof fn law_ready_is_longest_run(capacity: nat, origin: StreamPos, events: Seq<Event>)
    requires
        0 < capacity <= MAX_DISTANCE,
        Reception::start(capacity, origin).can_all(events),
    ensures
        ({
            let end = Reception::start(capacity, origin).after_all(events);
            &&& end.valid(origin)
            &&& forall|k: int|
                end.read <= k < end.read + end.window.ready.len() ==> #[trigger] end.covered(k)
            &&& !end.covered((end.read + end.window.ready.len()) as int)
        }),
    decreases events.len(),
{
    let start = Reception::start(capacity, origin);
    let end = start.after_all(events);
    if events.len() > 0 {
        let before = start.after_all(events.drop_last());
        law_ready_is_longest_run(capacity, origin, events.drop_last());
        match events.last() {
            Event::Receive(pos, data) => {
                before.lemma_receive(origin, pos, data);
            },
            Event::Read(n) => {
                before.lemma_read(origin, n);
            },
        }
    }
    if end.covered(end.reached()) {
        let i = choose|i: int| #![trigger end.stored[i]]
            0 <= i < end.stored.len() && end.stored[i].0 <= end.reached() < end.stored[i].1;
        assert(end.window.ahead.len() > 0);
        assert(end.window.ahead[0] is None);
        assert(end.covered(end.reached() + 0));
    }
}

/// How many bytes are ready depends on which bytes were stored and how many were read, not on the
/// order, the overlap or the number of the blocks.
pub proof fn law_ready_depends_on_stored_bytes(
    capacity: nat,
    other_capacity: nat,
    origin: StreamPos,
    other_origin: StreamPos,
    events: Seq<Event>,
    other_events: Seq<Event>,
)
    requires
        0 < capacity <= MAX_DISTANCE,
        0 < other_capacity <= MAX_DISTANCE,
        Reception::start(capacity, origin).can_all(events),
        Reception::start(other_capacity, other_origin).can_all(other_events),
        ({
            let end = Reception::start(capacity, origin).after_all(events);
            let other = Reception::start(other_capacity, other_origin).after_all(other_events);
            &&& end.read == other.read
            &&& forall|k: int| #[trigger] end.covered(k) == other.covered(k)
        }),
    ensures
        Reception::start(capacity, origin).after_all(events).window.ready.len()
            == Reception::start(other_capacity, other_origin).after_all(
            other_events,
        ).window.ready.len(),
{
    let end = Reception::start(capacity, origin).after_all(events);
    let other = Reception::start(other_capacity, other_origin).after_all(other_events);
    law_ready_is_longest_run(capacity, origin, events);
    law_ready_is_longest_run(other_capacity, other_origin, other_events);
    if end.window.ready.len() < other.window.ready.len() {
        assert(other.covered(end.reached()));
    }
    if other.window.ready.len() < end.window.ready.len() {
        assert(end.covered(other.reached()));
    }
}

} // verus!
