//! What a pair of reliable channels of serialized messages promises: the messages that are sent over one
//! of them are what the other one receives, in the same order.

use vstd::prelude::*;

use crate::framing::{coalesced, first_message, framed, law_read_back, law_write_coalesces};
use crate::reliable_bincode_channel::{
    law_message_arrives, law_partial_message_waits, RecvError, SendError,
};
use crate::reliable_channel::reliability::Flow;
use crate::reliable_channel::{Error, Status};
use crate::stream_buffer::{law_fill_keeps_arrived, moved, RecvSide, SendSide};
use crate::windows::recv::RecvView;
use crate::windows::send::SendView;

verus! {

/// No message is longer than `max`.
pub open spec fn limited(msgs: Seq<Seq<u8>>, max: u16) -> bool {
    forall|i: int| 0 <= i < msgs.len() ==> (#[trigger] msgs[i]).len() <= max
}

/// The sending side of a channel, with what it has been used for.
pub struct Sending {
    pub side: SendSide,
    /// The bytes that were written to the reliable channel.
    pub written: Seq<u8>,
    /// The messages that were sent.
    pub sent: Seq<Seq<u8>>,
}

/// What can happen on the sending side.
pub enum SendEvent {
    /// A message is handed to the channel.
    Send(Seq<u8>),
    Flush,
    /// The reliable channel changes by itself.
    Channel(SendView, Status),
}

impl Sending {
    /// A channel that was just opened.
    pub open spec fn start(window: SendView, status: Status) -> Sending {
        Sending {
            side: SendSide { window, status, outgoing: Seq::empty() },
            written: Seq::empty(),
            sent: Seq::empty(),
        }
    }

    /// Nothing waits to be written.
    pub open spec fn all_written(self) -> bool {
        self.side.outgoing.len() == 0
    }

    /// The state after `event`, where no message may be longer than `max`.
    pub open spec fn after(self, max: u16, event: SendEvent) -> Sending {
        match event {
            SendEvent::Send(msg) => Sending {
                side: self.side.after_message(msg, max),
                written: self.written + moved(self.side),
                sent: if self.side.message_sent(msg.len(), max) == Ok::<bool, SendError>(true) {
                    self.sent.push(msg)
                } else {
                    self.sent
                },
            },
            SendEvent::Flush => Sending {
                side: self.side.drained(),
                written: self.written + moved(self.side),
                ..self
            },
            SendEvent::Channel(window, status) => Sending {
                side: SendSide { window, status, ..self.side },
                ..self
            },
        }
    }

    /// The state after all of `events`.
    pub open spec fn after_all(self, max: u16, events: Seq<SendEvent>) -> Sending
        decreases events.len(),
    {
        if events.len() == 0 {
            self
        } else {
            self.after_all(max, events.drop_last()).after(max, events.last())
        }
    }

    /// What was written, or is going to be, is what is transmitted for the messages that were sent.
    pub open spec fn frames(self, max: u16) -> bool {
        &&& self.written + self.side.outgoing == coalesced(self.sent)
        &&& limited(self.sent, max)
    }

    proof fn lemma_event(self, max: u16, event: SendEvent)
        requires
            self.frames(max),
        ensures
            self.after(max, event).frames(max),
    {
        let next = self.after(max, event);
        let drained = self.side.drained();
        assert(self.written + moved(self.side) + drained.outgoing =~= self.written
            + self.side.outgoing);
        if let SendEvent::Send(msg) = event {
            if self.side.message_sent(msg.len(), max) == Ok::<bool, SendError>(true) {
                assert(drained.outgoing.len() == 0);
                law_write_coalesces(self.sent, msg);
                assert(next.written =~= coalesced(self.sent));
            }
        }
    }
}

/// What is written to a channel by any calls is the beginning of what is transmitted for the messages that
/// were sent, in the order in which they were, and the rest of it waits to be written.
pub proof fn law_written_frames_sent(
    max: u16,
    window: SendView,
    status: Status,
    events: Seq<SendEvent>,
)
    ensures
        Sending::start(window, status).after_all(max, events).frames(max),
    decreases events.len(),
{
    let start = Sending::start(window, status);
    if events.len() == 0 {
        assert(start.written + start.side.outgoing =~= coalesced(start.sent));
    } else {
        law_written_frames_sent(max, window, status, events.drop_last());
        start.after_all(max, events.drop_last()).lemma_event(max, events.last());
    }
}

/// A flush that is done leaves nothing to be written.
pub proof fn law_flush_writes_all(sending: Sending, max: u16)
    requires
        sending.side.flush_result() == Ok::<bool, Error>(true),
    ensures
        sending.after(max, SendEvent::Flush).all_written(),
{
}

/// The receiving side of a channel, with what it has been used for.
pub struct Receiving {
    pub side: RecvSide,
    /// The bytes that ever were ready in the reliable channel.
    pub arrived: Seq<u8>,
    /// The messages that were received.
    pub received: Seq<Seq<u8>>,
}

/// What can happen on the receiving side.
pub enum RecvEvent {
    /// More bytes become ready in the reliable channel.
    Arrive(RecvView),
    /// A message is asked for, and taken if there is one.
    Recv,
}

impl Receiving {
    /// A channel that was just opened and has received nothing.
    pub open spec fn start(window: RecvView) -> Receiving {
        Receiving {
            side: RecvSide { window, status: Status::Running, incoming: Seq::empty() },
            arrived: Seq::empty(),
            received: Seq::empty(),
        }
    }

    /// The receiving side once a message has been asked for.
    pub open spec fn asked(self, max: u16) -> RecvSide {
        self.side.filled(self.side.wanted(max))
    }

    /// Whether `event` can happen.
    pub open spec fn can(self, event: RecvEvent) -> bool {
        match event {
            RecvEvent::Arrive(window) => self.side.window.ready.is_prefix_of(window.ready),
            RecvEvent::Recv => true,
        }
    }

    /// The state after `event`.
    pub open spec fn after(self, max: u16, event: RecvEvent) -> Receiving {
        match event {
            RecvEvent::Arrive(window) => Receiving {
                side: RecvSide { window, ..self.side },
                arrived: self.arrived + window.ready.skip(self.side.window.ready.len() as int),
                ..self
            },
            RecvEvent::Recv => if self.side.message_result(max) == Ok::<bool, RecvError>(true) {
                Receiving {
                    side: RecvSide { incoming: Seq::empty(), ..self.asked(max) },
                    received: self.received.push(first_message(self.asked(max).incoming)->0),
                    ..self
                }
            } else {
                Receiving { side: self.asked(max), ..self }
            },
        }
    }

    /// Every event of `events` can happen after those before it.
    pub open spec fn can_all(self, max: u16, events: Seq<RecvEvent>) -> bool
        decreases events.len(),
    {
        events.len() == 0 || (self.can_all(max, events.drop_last()) && self.after_all(
            max,
            events.drop_last(),
        ).can(events.last()))
    }

    /// The state after all of `events`.
    pub open spec fn after_all(self, max: u16, events: Seq<RecvEvent>) -> Receiving
        decreases events.len(),
    {
        if events.len() == 0 {
            self
        } else {
            self.after_all(max, events.drop_last()).after(max, events.last())
        }
    }

    /// What was received are the first of the messages that were `sent`, and what has arrived since is
    /// what is transmitted for the others.
    spec fn follows(self, max: u16, sent: Seq<Seq<u8>>) -> bool {
        let done = self.received.len() as int;
        let used = coalesced(sent.take(done)).len() as int;
        &&& limited(sent, max)
        &&& self.received.is_prefix_of(sent)
        &&& self.arrived.is_prefix_of(coalesced(sent))
        &&& used <= self.arrived.len()
        &&& self.side.status == Status::Running
        &&& self.side.arrived() == self.arrived.skip(used)
        &&& self.side.incoming.len() <= (if done < sent.len() {
            framed(sent[done]).len()
        } else {
            0
        })
    }

    proof fn lemma_recv(self, max: u16, sent: Seq<Seq<u8>>)
        requires
            self.follows(max, sent),
        ensures
            self.after(max, RecvEvent::Recv).follows(max, sent),
            self.arrived == coalesced(sent) && self.received.len() < sent.len() ==> {
                &&& self.side.message_result(max) == Ok::<bool, RecvError>(true)
                &&& first_message(self.asked(max).incoming) == Some(
                    sent[self.received.len() as int],
                )
            },
    {
        let next = self.after(max, RecvEvent::Recv);
        let done = self.received.len() as int;
        let used = coalesced(sent.take(done)).len() as int;
        let arrived = self.side.arrived();
        law_fill_keeps_arrived(self.side, self.side.wanted(max));
        if done < sent.len() {
            let msg = sent[done];
            let frame = framed(msg);
            lemma_coalesced_prefix(sent, done + 1);
            assert(sent.take(done + 1) =~= sent.take(done).push(msg));
            law_write_coalesces(sent.take(done), msg);
            assert forall|k: int| 0 <= k < arrived.len() && k < frame.len() implies arrived[k]
                == frame[k] by {
                assert(self.arrived[used + k] == coalesced(sent)[used + k]);
                assert(coalesced(sent.take(done + 1))[used + k] == frame[k]);
            }
            if arrived.len() < frame.len() {
                assert(arrived =~= frame.take(arrived.len() as int));
                law_partial_message_waits(self.side, max, msg, arrived.len() as int);
            } else {
                let rest = arrived.skip(frame.len() as int);
                assert(arrived =~= frame + rest);
                law_message_arrives(self.side, max, msg, rest);
                law_read_back(msg, Seq::empty());
                assert(frame + Seq::<u8>::empty() =~= frame);
                assert(next.received =~= sent.take(done + 1));
                assert(next.side.arrived() =~= rest);
                assert(rest =~= self.arrived.skip(used + frame.len()));
            }
        } else {
            assert(sent.take(done) =~= sent);
            assert(arrived.len() == 0);
        }
    }
}

/// What is transmitted for the first messages is transmitted first.
proof fn lemma_coalesced_prefix(msgs: Seq<Seq<u8>>, n: int)
    requires
        0 <= n <= msgs.len(),
    ensures
        coalesced(msgs.take(n)).is_prefix_of(coalesced(msgs)),
    decreases msgs.len(),
{
    if n == msgs.len() {
        assert(msgs.take(n) =~= msgs);
    } else {
        lemma_coalesced_prefix(msgs.drop_last(), n);
        assert(msgs.drop_last().take(n) =~= msgs.take(n));
    }
}

/// What is received keeps following what was sent.
proof fn lemma_follows(
    max: u16,
    window: RecvView,
    sent: Seq<Seq<u8>>,
    events: Seq<RecvEvent>,
)
    requires
        limited(sent, max),
        window.ready.len() == 0,
        Receiving::start(window).can_all(max, events),
        Receiving::start(window).after_all(max, events).arrived.is_prefix_of(coalesced(sent)),
    ensures
        Receiving::start(window).after_all(max, events).follows(max, sent),
    decreases events.len(),
{
    let start = Receiving::start(window);
    if events.len() == 0 {
        assert(sent.take(0) =~= Seq::<Seq<u8>>::empty());
        assert(start.side.arrived() =~= start.arrived.skip(0));
        assert(start.received.is_prefix_of(sent));
    } else {
        let before = start.after_all(max, events.drop_last());
        let end = start.after_all(max, events);
        assert(before.arrived.is_prefix_of(end.arrived));
        lemma_follows(max, window, sent, events.drop_last());
        match events.last() {
            RecvEvent::Arrive(window) => {
                let used = coalesced(sent.take(before.received.len() as int)).len() as int;
                let ready = before.side.window.ready;
                let more = window.ready.skip(ready.len() as int);
                assert(window.ready =~= ready + more);
                assert(end.side.arrived() =~= before.side.arrived() + more);
                assert(end.arrived.skip(used) =~= before.arrived.skip(used) + more);
            },
            RecvEvent::Recv => {
                before.lemma_recv(max, sent);
            },
        }
    }
}

/// Messages that are sent over a reliable channel are received by the other one, in the same order and as
/// they were, whatever becomes of the packets on the way. Once everything is written, which a flush
/// does, and has arrived, each message that was not received yet is there when it is asked for.
pub proof fn law_sent_messages_are_received<I>(
    max: u16,
    send_window: SendView,
    status: Status,
    sends: Seq<SendEvent>,
    flow: Flow<I>,
    recv_window: RecvView,
    receives: Seq<RecvEvent>,
)
    requires
        flow.valid(),
        flow.written == Sending::start(send_window, status).after_all(max, sends).written,
        recv_window.ready.len() == 0,
        Receiving::start(recv_window).can_all(max, receives),
        Receiving::start(recv_window).after_all(max, receives).arrived == flow.written.take(
            flow.ready_len(),
        ),
    ensures
        ({
            let sending = Sending::start(send_window, status).after_all(max, sends);
            let receiving = Receiving::start(recv_window).after_all(max, receives);
            &&& receiving.received.is_prefix_of(sending.sent)
            &&& sending.all_written() && flow.ready_len() == flow.written.len()
                && receiving.received.len() < sending.sent.len() ==> {
                &&& receiving.side.message_result(max) == Ok::<bool, RecvError>(true)
                &&& first_message(receiving.asked(max).incoming) == Some(
                    sending.sent[receiving.received.len() as int],
                )
            }
        }),
{
    let sending = Sending::start(send_window, status).after_all(max, sends);
    let receiving = Receiving::start(recv_window).after_all(max, receives);
    law_written_frames_sent(max, send_window, status, sends);
    assert(receiving.arrived.is_prefix_of(coalesced(sending.sent)));
    lemma_follows(max, recv_window, sending.sent, receives);
    receiving.lemma_recv(max, sending.sent);
    if sending.all_written() && flow.ready_len() == flow.written.len() {
        assert(receiving.arrived =~= coalesced(sending.sent));
    }
}

} // verus!
