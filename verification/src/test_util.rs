//! A clock for tests, which stands still until it is advanced.

use vstd::prelude::*;

verus! {

/// The state of a [`TestTimer`].
#[verifier::ext_equal]
pub struct TimerView<W> {
    /// The time in milliseconds.
    pub time: nat,
    /// Those who wait, each with the time that it waits for.
    pub queue: Seq<(u64, W)>,
}

impl<W> TimerView<W> {
    /// Those who wait are in the order of the times, and no one waits for a time that has come.
    pub open spec fn valid(self) -> bool {
        &&& self.time <= u64::MAX
        &&& forall|i: int, j: int|
            0 <= i <= j < self.queue.len() ==> (#[trigger] self.queue[i]).0 <= (
            #[trigger] self.queue[j]).0
        &&& forall|i: int| 0 <= i < self.queue.len() ==> self.time < (#[trigger] self.queue[i]).0
    }
}

/// A clock with those who wait for it, each of whom is to be woken up by a waker of type `W`.
pub struct TestTimer<W> {
    time: u64,
    queue: Vec<(u64, W)>,
}

impl<W> TestTimer<W> {
    pub closed spec fn view(&self) -> TimerView<W> {
        TimerView { time: self.time as nat, queue: self.queue@ }
    }

    pub fn new() -> (timer: Self)
        ensures
            timer@.valid(),
            timer@ == (TimerView { time: 0, queue: Seq::<(u64, W)>::empty() }),
    {
        TestTimer { time: 0, queue: Vec::new() }
    }

    /// The time in milliseconds.
    pub fn now(&self) -> (time: u64)
        ensures
            time == self@.time,
    {
        self.time
    }

    /// The milliseconds since a time that has come.
    pub fn elapsed(&self, instant: u64) -> (millis: u64)
        requires
            instant <= self@.time,
        ensures
            millis == self@.time - instant,
    {
        self.time - instant
    }

    /// Advances the time. Returns those who waited for a time that has come, to be woken up.
    pub fn advance(&mut self, millis: u64) -> (arrived: Vec<(u64, W)>)
        requires
            old(self)@.valid(),
            old(self)@.time + millis <= u64::MAX,
        ensures
            final(self)@.valid(),
            final(self)@.time == old(self)@.time + millis,
            arrived@ + final(self)@.queue == old(self)@.queue,
            forall|i: int|
                0 <= i < final(self)@.queue.len() ==> final(self)@.time < (
                #[trigger] final(self)@.queue[i]).0,
            forall|i: int|
                0 <= i < arrived@.len() ==> (#[trigger] arrived@[i]).0 <= final(self)@.time,
    {
        self.time = self.time + millis;
        let mut arrived: usize = 0;
        while arrived < self.queue.len() && self.time >= self.queue[arrived].0
            invariant
                arrived <= self.queue.len(),
                self.queue@ == old(self).queue@,
                forall|i: int| 0 <= i < arrived ==> (#[trigger] self.queue@[i]).0 <= self.time,
            decreases self.queue.len() - arrived,
        {
            arrived = arrived + 1;
        }
        let mut rest = self.queue.split_off(arrived);
        std::mem::swap(&mut self.queue, &mut rest);
        proof {
            let before = old(self)@.queue;
            let after = self@.queue;
            assert(rest@ + after =~= before);
            assert forall|i: int| 0 <= i < after.len() implies self.time < (
            #[trigger] after[i]).0 by {
                assert(after[i] == before[arrived + i]);
                assert(before[arrived as int].0 <= before[arrived + i].0);
            }
            assert forall|i: int, j: int| 0 <= i <= j < after.len() implies (
            #[trigger] after[i]).0 <= (#[trigger] after[j]).0 by {
                assert(before[arrived + i].0 <= before[arrived + j].0);
            }
        }
        rest
    }

    /// The time to wait for in order to wait for so many milliseconds.
    ///
    /// The clock requires manual advancing, so that time never has come, in order not to starve the
    /// code that manually advances the clock.
    pub fn arrival(&self, millis: u64) -> (arrival: u64)
        requires
            self@.time + millis <= u64::MAX,
            self@.time < u64::MAX,
        ensures
            arrival == self@.time + (if millis < 1 {
                1
            } else {
                millis as int
            }),
            arrival > self@.time,
    {
        if millis < 1 {
            self.time + 1
        } else {
            self.time + millis
        }
    }

    /// The time, if the time `arrival` has come. Otherwise the waker is kept until then.
    pub fn poll_delay(&mut self, arrival: u64, waker: W) -> (time: Option<u64>)
        requires
            old(self)@.valid(),
        ensures
            final(self)@.valid(),
            final(self)@.time == old(self)@.time,
            time == (if old(self)@.time >= arrival {
                Some(old(self)@.time as u64)
            } else {
                None
            }),
            time is Some ==> final(self)@ == old(self)@,
            time is None ==> exists|i: int|
                {
                    &&& 0 <= i <= old(self)@.queue.len()
                    &&& final(self)@.queue == #[trigger] old(self)@.queue.insert(
                        i,
                        (arrival, waker),
                    )
                },
    {
        if self.time >= arrival {
            return Some(self.time);
        }
        let mut i: usize = 0;
        while i < self.queue.len() && self.queue[i].0 < arrival
            invariant
                i <= self.queue.len(),
                self.queue@ == old(self).queue@,
                forall|k: int| 0 <= k < i ==> (#[trigger] self.queue@[k]).0 < arrival,
            decreases self.queue.len() - i,
        {
            i = i + 1;
        }
        self.queue.insert(i, (arrival, waker));
        proof {
            let before = old(self)@.queue;
            let after = self@.queue;
            assert(after == before.insert(i as int, (arrival, waker)));
            assert forall|k: int, l: int| 0 <= k <= l < after.len() implies (
            #[trigger] after[k]).0 <= (#[trigger] after[l]).0 by {
                let bk = if k < i {
                    k
                } else {
                    k - 1
                };
                let bl = if l < i {
                    l
                } else {
                    l - 1
                };
                if k != i && l != i {
                    assert(before[bk].0 <= before[bl].0);
                } else if k == i && l != i {
                    assert(before[i as int].0 <= before[bl].0);
                }
            }
            assert forall|k: int| 0 <= k < after.len() implies self@.time < (
            #[trigger] after[k]).0 by {
                if k < i {
                    assert(old(self)@.time < before[k].0);
                } else if k > i {
                    assert(old(self)@.time < before[k - 1].0);
                }
            }
        }
        None
    }
}

} // verus!
