//! Events that are never missed.

use vstd::prelude::*;

verus! {

/// The state of a multi-producer single-consumer stream of events with certain beneficial
/// properties.
///
/// If a receiver is waiting on a signaled event, a call of [`EventWatch::signal`] will wakeup the
/// receiver as normal.  However, if the receiver is *not* waiting on a signaled event and a signal
/// has been given since the last time that the receiver waited, then waiting again will immediately
/// resolve.  In this way, the receiver is prevented from possibly missing events.
///
/// In other words, a signal will always do one of two things:
///   1) Wake up a currently waiting receiver
///   2) Make the next wait resolve immediately
///
/// Multiple signals will however *not* cause *multiple* waits to resolve immediately, only the very
/// next one.
///
/// You can look at this as a specialized version a bounded channel of `()` with capacity 1.
#[derive(Debug)]
pub struct EventWatch {
    signaled: bool,
}

/// What happens to a stream of events.
pub enum Event {
    /// An event is signaled.
    Signal,
    /// The receiver asks for an event.
    Wait,
}

/// Whether there is an event to be received after `event`.
pub open spec fn after(signaled: bool, event: Event) -> bool {
    match event {
        Event::Signal => true,
        Event::Wait => false,
    }
}

/// Whether there is an event to be received after `events`, one after the other.
pub open spec fn after_all(signaled: bool, events: Seq<Event>) -> bool
    decreases events.len(),
{
    if events.len() == 0 {
        signaled
    } else {
        after(after_all(signaled, events.drop_last()), events.last())
    }
}

impl EventWatch {
    /// Whether there is an event to be received.
    pub closed spec fn signaled(&self) -> bool {
        self.signaled
    }

    pub fn new() -> (watch: Self)
        ensures
            !watch.signaled(),
    {
        EventWatch { signaled: false }
    }

    /// Signals an event. A receiver that waits is then to be woken up.
    pub fn signal(&mut self)
        ensures
            final(self).signaled() == after(old(self).signaled(), Event::Signal),
    {
        self.signaled = true;
    }

    /// Receives the event that has been signaled. If there is none the receiver has to wait.
    pub fn poll_wait(&mut self) -> (resolved: bool)
        ensures
            resolved == old(self).signaled(),
            final(self).signaled() == after(old(self).signaled(), Event::Wait),
    {
        let signaled: bool = self.signaled;
        self.signaled = false;
        signaled
    }
}

/// No event is missed and none is received twice: a wait after `events` resolves immediately if and
/// only if an event was signaled since the last wait among them.
pub proof fn law_event_received_once(events: Seq<Event>)
    ensures
        after_all(false, events) <==> exists|i: int|
            0 <= i < events.len() && #[trigger] events[i] is Signal && forall|j: int|
                i < j < events.len() ==> !(#[trigger] events[j] is Wait),
{
    if events.len() > 0 {
        let last = events.len() - 1;
        if events[last] is Signal {
            assert(events[last] is Signal && forall|j: int|
                last < j < events.len() ==> !(events[j] is Wait));
        }
    }
}

} // verus!
