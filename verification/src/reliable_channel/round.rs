//! What a reliable channel does each time it wakes up.

use vstd::prelude::*;

verus! {

/// Why the channel woke up.
#[derive(Debug, Clone, Copy, PartialEq, Eq, Structural)]
pub enum WakeReason {
    /// It is time to look for data to resend.
    ResendTimer,
    /// A packet has arrived.
    IncomingPacket,
    /// There is new data to send.
    SendAvailable,
}

/// What a channel that waits goes by.
#[derive(Debug, Clone, Copy, PartialEq, Eq, Structural)]
pub struct Situation {
    /// A packet has arrived.
    pub incoming_packet: bool,
    /// The time of the resend timer has come.
    pub timer_elapsed: bool,
    /// There is bandwidth to send with.
    pub bandwidth_available: bool,
    /// The number of bytes that the remote is believed to be ready to receive.
    pub remote_recv_available: u32,
    /// The number of bytes that were written and not sent yet.
    pub send_available: u32,
}

/// Why to wake up, if there is a reason.
///
/// Without bandwidth there is no point in waking up for resends or for new data, and none in waking
/// up for new data that the remote is not ready to receive.
pub fn wake_reason(situation: Situation) -> (reason: Option<WakeReason>)
    ensures
        reason == (if situation.incoming_packet {
            Some(WakeReason::IncomingPacket)
        } else if !situation.bandwidth_available {
            None
        } else if situation.timer_elapsed {
            Some(WakeReason::ResendTimer)
        } else if situation.remote_recv_available > 0 && situation.send_available > 0 {
            Some(WakeReason::SendAvailable)
        } else {
            None
        }),
        // A packet is never left waiting, and nothing else is done without bandwidth.
        situation.incoming_packet <==> reason == Some(WakeReason::IncomingPacket),
        reason is Some && !situation.incoming_packet ==> situation.bandwidth_available,
        // New data does not keep what is due from being resent.
        situation.timer_elapsed && situation.bandwidth_available ==> reason is Some && reason
            != Some(WakeReason::SendAvailable),
        reason == Some(WakeReason::ResendTimer) ==> situation.timer_elapsed,
        // New data is sent as soon as there is some, the remote is ready for it and there is bandwidth.
        situation.send_available > 0 && situation.remote_recv_available > 0
            && situation.bandwidth_available ==> reason is Some,
        reason == Some(WakeReason::SendAvailable) ==> situation.send_available > 0
            && situation.remote_recv_available > 0,
{
    if situation.incoming_packet {
        Some(WakeReason::IncomingPacket)
    } else if situation.bandwidth_available && situation.timer_elapsed {
        Some(WakeReason::ResendTimer)
    } else if situation.bandwidth_available && situation.remote_recv_available > 0
        && situation.send_available > 0 {
        Some(WakeReason::SendAvailable)
    } else {
        None
    }
}

/// A step of the work that follows a wake-up.
#[derive(Debug, Clone, Copy, PartialEq, Eq, Structural)]
pub enum Step {
    /// Receive the packet that has arrived.
    Receive,
    /// Consider whether the unacked range at this index is due to be resent, and resend it then. To
    /// be answered with [`Round::considered`].
    Consider(usize),
    /// Set the resend timer anew.
    RestartTimer,
    /// Send new data.
    Send,
    /// Keep the connection from stalling, and wait for the next wake-up.
    Finish,
}

/// The steps that remain.
#[derive(Debug, Clone, Copy, PartialEq, Eq, Structural)]
enum Phase {
    Receiving,
    Resending(usize),
    Restarting,
    Sending,
    Finished,
}

/// The work that follows a wake-up.
#[derive(Debug, Clone, Copy, PartialEq, Eq, Structural)]
pub struct Round {
    phase: Phase,
    send_after: bool,
}

/// The steps that consider the unacked ranges from `first` up to `n`.
pub open spec fn considering(first: int, n: int) -> Seq<Step> {
    Seq::new(
        if first < n {
            (n - first) as nat
        } else {
            0
        },
        |i: int| Step::Consider((first + i) as usize),
    )
}

/// The steps that follow the resends.
pub open spec fn closing(send_after: bool) -> Seq<Step> {
    if send_after {
        seq![Step::RestartTimer, Step::Send, Step::Finish]
    } else {
        seq![Step::RestartTimer, Step::Finish]
    }
}

/// A round that resends considers each unacked range once, in order, before it sends anything new. It sets
/// the resend timer anew after the last of them, sends new data once if it is a round that does, and
/// finishes.
pub proof fn law_resends_come_first(n: int, send_after: bool)
    requires
        0 <= n <= usize::MAX,
    ensures
        ({
            let steps = considering(0, n) + closing(send_after);
            &&& steps.len() == n + (if send_after {
                3int
            } else {
                2
            })
            &&& forall|i: int| 0 <= i < n ==> #[trigger] steps[i] == Step::Consider(i as usize)
            &&& steps[n] == Step::RestartTimer
            &&& send_after ==> steps[n + 1] == Step::Send
            &&& steps.last() == Step::Finish
        }),
{
}

/// The ranges that are left to be considered are those that have not been considered.
pub proof fn law_considers_the_rest(first: int, n: int)
    requires
        0 <= first < n <= usize::MAX,
    ensures
        considering(first, n)[0] == Step::Consider(first as usize),
        considering(first, n).skip(1) == considering(first + 1, n),
        considering(n, n).len() == 0,
{
    assert(considering(first, n).skip(1) =~= considering(first + 1, n));
}

impl Round {
    /// The steps that remain while there are `n` unacked ranges, as long as there is bandwidth.
    pub closed spec fn plan(self, n: int) -> Seq<Step> {
        match self.phase {
            Phase::Receiving => seq![Step::Receive, Step::Finish],
            Phase::Resending(first) => considering(first as int, n) + closing(self.send_after),
            Phase::Restarting => closing(self.send_after),
            Phase::Sending => seq![Step::Send, Step::Finish],
            Phase::Finished => seq![Step::Finish],
        }
    }

    /// Whether new data is sent in this round.
    pub closed spec fn send_after(self) -> bool {
        self.send_after
    }

    /// Starts the work that follows a wake-up.
    ///
    /// Available bandwidth is used for resends before new data is sent, to avoid starving resends.
    pub fn begin(reason: WakeReason) -> (round: Round)
        ensures
            round.send_after() == (reason == WakeReason::SendAvailable),
            forall|n: int| #[trigger]
                round.plan(n) == (match reason {
                    WakeReason::IncomingPacket => seq![Step::Receive, Step::Finish],
                    WakeReason::ResendTimer => considering(0, n) + closing(false),
                    WakeReason::SendAvailable => considering(0, n) + closing(true),
                }),
    {
        match reason {
            WakeReason::IncomingPacket => Round { phase: Phase::Receiving, send_after: false },
            WakeReason::ResendTimer => Round { phase: Phase::Resending(0), send_after: false },
            WakeReason::SendAvailable => Round { phase: Phase::Resending(0), send_after: true },
        }
    }

    /// The next step, with `unacked_len` unacked ranges. Every step but `Step::Consider` counts as
    /// taken.
    pub fn step(&mut self, unacked_len: usize) -> (step: Step)
        ensures
            final(self).send_after() == old(self).send_after(),
            step == old(self).plan(unacked_len as int)[0],
            match step {
                Step::Consider(_) => *final(self) == *old(self),
                Step::Finish => final(self).plan(unacked_len as int) == seq![Step::Finish],
                _ => final(self).plan(unacked_len as int) == old(self).plan(
                    unacked_len as int,
                ).skip(1),
            },
    {
        let ghost plan = self.plan(unacked_len as int);
        match self.phase {
            Phase::Receiving => {
                self.phase = Phase::Finished;
                assert(plan.skip(1) =~= seq![Step::Finish]);
                Step::Receive
            },
            Phase::Resending(first) => {
                if first < unacked_len {
                    return Step::Consider(first);
                }
                self.phase = if self.send_after {
                    Phase::Sending
                } else {
                    Phase::Finished
                };
                assert(plan.skip(1) =~= closing(self.send_after).skip(1));
                assert(plan.skip(1) =~= self.plan(unacked_len as int));
                Step::RestartTimer
            },
            Phase::Restarting => {
                self.phase = if self.send_after {
                    Phase::Sending
                } else {
                    Phase::Finished
                };
                assert(plan.skip(1) =~= self.plan(unacked_len as int));
                Step::RestartTimer
            },
            Phase::Sending => {
                self.phase = Phase::Finished;
                assert(plan.skip(1) =~= seq![Step::Finish]);
                Step::Send
            },
            Phase::Finished => Step::Finish,
        }
    }

    /// Answers a `Step::Consider` and returns whether the range is to be resent. Without bandwidth
    /// the remaining ranges are left for later.
    pub fn considered(&mut self, unacked_len: usize, bytes_available: bool, due: bool) -> (resend:
        bool)
        requires
            old(self).plan(unacked_len as int)[0] is Consider,
        ensures
            resend == (bytes_available && due),
            final(self).send_after() == old(self).send_after(),
            final(self).plan(unacked_len as int) == (if bytes_available {
                old(self).plan(unacked_len as int).skip(1)
            } else {
                closing(old(self).send_after())
            }),
    {
        let ghost plan = self.plan(unacked_len as int);
        match self.phase {
            Phase::Resending(first) => {
                assert(first < unacked_len);
                if bytes_available {
                    self.phase = Phase::Resending(first + 1);
                    assert(plan.skip(1) =~= self.plan(unacked_len as int));
                } else {
                    self.phase = Phase::Restarting;
                }
            },
            _ => {},
        }
        bytes_available && due
    }
}

} // verus!
