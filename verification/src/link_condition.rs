//! A link that loses, duplicates and delays packets.
//!
//! What happens to a packet is a matter of chance, which is left to the user. Times are in
//! microseconds since the link was set up.

use vstd::multiset::Multiset;
use vstd::prelude::*;
use vstd::seq_lib::group_to_multiset_ensures;

use crate::packet::{Packet, PacketPool};

verus! {

/// What happens to a packet on the link.
#[derive(Debug, Clone, Copy, PartialEq, Eq, Structural)]
pub enum Fate {
    Lost,
    /// The packet arrives at one time, and a duplicate of it may arrive at another time.
    ///
    /// Duplicated packets are delayed and jittered separately from their source packet.
    Delayed { at: u64, duplicate_at: Option<u64> },
}

/// What the receiving end of the link has to do.
#[derive(Debug, Clone, Copy, PartialEq, Eq, Structural)]
pub enum Next {
    /// Wait until a packet is pushed.
    Pending,
    /// Wait for so many microseconds, and then take a packet.
    Sleep(u64),
    /// Take a packet.
    Ready,
}

/// The packets that are on the link.
pub struct DelayedPackets<P: PacketPool> {
    pool: P,
    queue: Vec<(u64, P::Packet)>,
}

/// `at` is the least of the times of some packets.
pub open spec fn is_first<T>(packets: Multiset<(u64, T)>, at: u64) -> bool {
    &&& exists|packet: T| #[trigger] packets.contains((at, packet))
    &&& forall|other: (u64, T)| #[trigger] packets.contains(other) ==> at <= other.0
}

/// No packet arrives before the first one, and the time when that arrives is one time only.
pub proof fn law_first_is_least<T>(packets: Multiset<(u64, T)>, at: u64, other: u64)
    requires
        is_first(packets, at),
    ensures
        forall|packet: T| #[trigger] packets.contains((other, packet)) ==> at <= other,
        exists|packet: T| #[trigger] packets.contains((at, packet)),
        is_first(packets, other) ==> at == other,
{
}

impl<P: PacketPool> DelayedPackets<P> {
    /// The packets that are on the link, each with the time when it arrives.
    pub closed spec fn view(&self) -> Multiset<(u64, P::Packet)> {
        self.queue@.to_multiset()
    }

    /// The capacity of a duplicate.
    pub closed spec fn limit(&self) -> nat {
        self.pool.limit()
    }

    pub closed spec fn wf(&self) -> bool {
        self.pool.wf()
    }

    pub fn new(pool: P) -> (packets: Self)
        requires
            pool.wf(),
        ensures
            packets.wf(),
            packets.limit() == pool.limit(),
            packets@ == Multiset::<(u64, P::Packet)>::empty(),
    {
        broadcast use group_to_multiset_ensures;

        let packets = DelayedPackets { pool, queue: Vec::new() };
        assert(packets@ =~= Multiset::<(u64, P::Packet)>::empty());
        packets
    }

    /// Puts a packet on the link.
    pub fn push(&mut self, packet: P::Packet, fate: Fate)
        requires
            old(self).wf(),
            packet.wf(),
            fate matches Fate::Delayed { duplicate_at: Some(_), .. } ==> packet.view().len()
                <= old(self).limit(),
        ensures
            final(self).wf(),
            final(self).limit() == old(self).limit(),
            match fate {
                Fate::Lost => final(self)@ == old(self)@,
                Fate::Delayed { at, duplicate_at: None } => final(self)@ == old(self)@.insert(
                    (at, packet),
                ),
                Fate::Delayed { at, duplicate_at: Some(dup_at) } => exists|dup: P::Packet|
                    {
                        &&& dup.wf()
                        &&& dup.view() == packet.view()
                        &&& final(self)@ == (#[trigger] old(self)@.insert((dup_at, dup))).insert(
                            (at, packet),
                        )
                    },
            },
    {
        broadcast use group_to_multiset_ensures;

        match fate {
            Fate::Lost => {},
            Fate::Delayed { at, duplicate_at } => {
                match duplicate_at {
                    Some(dup_at) => {
                        let mut dup_packet = self.pool.acquire();
                        dup_packet.extend(packet.as_slice());
                        assert(dup_packet.view() =~= packet.view());
                        self.queue.push((dup_at, dup_packet));
                        assert(self@ =~= old(self)@.insert((dup_at, dup_packet)));
                    },
                    None => {},
                }
                let ghost before = self@;
                self.queue.push((at, packet));
                assert(self@ =~= before.insert((at, packet)));
            },
        }
    }

    /// The place of a packet that arrives first.
    fn first(&self) -> (first: Option<usize>)
        ensures
            match first {
                None => self.queue@.len() == 0,
                Some(i) => {
                    &&& i < self.queue@.len()
                    &&& forall|k: int|
                        0 <= k < self.queue@.len() ==> self.queue@[i as int].0
                            <= #[trigger] self.queue@[k].0
                },
            },
    {
        if self.queue.len() == 0 {
            return None;
        }
        let mut first: usize = 0;
        let mut i: usize = 1;
        while i < self.queue.len()
            invariant
                first < i <= self.queue.len(),
                forall|k: int|
                    0 <= k < i ==> self.queue@[first as int].0 <= #[trigger] self.queue@[k].0,
            decreases self.queue.len() - i,
        {
            if self.queue[i].0 < self.queue[first].0 {
                first = i;
            }
            i = i + 1;
        }
        Some(first)
    }

    /// The least of the times when packets arrive.
    proof fn lemma_first(&self, first: Option<usize>)
        requires
            match first {
                None => self.queue@.len() == 0,
                Some(i) => {
                    &&& i < self.queue@.len()
                    &&& forall|k: int|
                        0 <= k < self.queue@.len() ==> self.queue@[i as int].0
                            <= #[trigger] self.queue@[k].0
                },
            },
        ensures
            first is None ==> self@.len() == 0,
            first matches Some(i) ==> {
                &&& is_first(self@, self.queue@[i as int].0)
                &&& self@.contains(self.queue@[i as int])
            },
    {
        broadcast use group_to_multiset_ensures;

        match first {
            None => {
                assert(self.queue@.to_multiset().len() == 0);
            },
            Some(i) => {
                let item = self.queue@[i as int];
                assert(self.queue@.contains(item));
                assert(self@.contains((item.0, item.1)));
                assert forall|other: (u64, P::Packet)| #[trigger]
                    self@.contains(other) implies item.0 <= other.0 by {
                    assert(self.queue@.contains(other));
                }
            },
        }
    }

    /// What to do at the time `now` to receive the packet that arrives first.
    pub fn next(&self, now: u64) -> (next: Next)
        ensures
            match next {
                Next::Pending => self@.len() == 0,
                Next::Sleep(micros) => 0 < micros && now + micros <= u64::MAX && is_first(
                    self@,
                    (now + micros) as u64,
                ),
                Next::Ready => exists|at: u64| at <= now && #[trigger] is_first(self@, at),
            },
            // A packet is taken as soon as one has arrived, and not before.
            next is Ready <==> exists|packet: (u64, P::Packet)| #[trigger]
                self@.contains(packet) && packet.0 <= now,
            next matches Next::Sleep(micros) ==> forall|packet: (u64, P::Packet)| #[trigger]
                self@.contains(packet) ==> now + micros <= packet.0,
    {
        let first = self.first();
        proof {
            self.lemma_first(first);
        }
        match first {
            None => {
                assert forall|packet: (u64, P::Packet)| !#[trigger] self@.contains(packet) by {
                    if self@.contains(packet) {
                        assert(self@.len() == 0);
                        assert(self.queue@.len() == 0);
                        broadcast use group_to_multiset_ensures;

                        assert(self.queue@.contains(packet));
                    }
                }
                Next::Pending
            },
            Some(i) => {
                let at: u64 = self.queue[i].0;
                assert(is_first(self@, at));
                assert(self@.contains(self.queue@[i as int]));
                if at > now {
                    Next::Sleep(at - now)
                } else {
                    Next::Ready
                }
            },
        }
    }

    /// Takes a packet that arrives first off the link.
    pub fn pop(&mut self) -> (packet: Option<P::Packet>)
        requires
            old(self).wf(),
        ensures
            final(self).wf(),
            final(self).limit() == old(self).limit(),
            match packet {
                None => old(self)@.len() == 0 && final(self)@ == old(self)@,
                Some(packet) => exists|at: u64|
                    {
                        &&& #[trigger] is_first(old(self)@, at)
                        &&& old(self)@.contains((at, packet))
                        &&& final(self)@ == old(self)@.remove((at, packet))
                    },
            },
    {
        broadcast use group_to_multiset_ensures;

        let first = self.first();
        proof {
            self.lemma_first(first);
        }
        match first {
            None => None,
            Some(i) => {
                let (at, packet) = self.queue.remove(i);
                assert(is_first(old(self)@, at));
                assert(self@ =~= old(self)@.remove((at, packet)));
                Some(packet)
            },
        }
    }
}

} // verus!
