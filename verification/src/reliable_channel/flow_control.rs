//! What the sending side of a reliable channel may send: as much as the remote has room for, and no more.

use vstd::prelude::*;

use crate::reliable_channel::reliability::near;
use crate::reliable_channel::segment::{law_parse_data_packet, parsed, Segment};
use crate::reliable_channel::SenderView;
use crate::windows::send::SendView;
use crate::windows::stream::{advance, lemma_advance_twice, lemma_order_from_base, StreamPos};

verus! {

/// The sending side of a channel, with what it was allowed to send.
pub struct Allowance<I> {
    pub sender: SenderView<I>,
    /// The number of bytes that were sent.
    pub sent: int,
    /// How far into the stream the sender may go: the furthest of the initial allowance, the window
    /// ends that the remote has advertised, and the allowances that were given when stalled.
    pub furthest: int,
}

/// What can happen on the sending side.
pub enum Event<I> {
    /// Data is written to the channel.
    Write(Seq<u8>),
    /// New data is sent in a packet of capacity `limit`.
    Send { limit: nat, now: I },
    /// The unacked range at `index` is sent again.
    Resend { index: int, now: I },
    /// An acknowledgement is received. The window end that it advertises is counted from the start of
    /// the stream, without wrapping around.
    Ack {
        start: StreamPos,
        end: StreamPos,
        window_end: int,
        bytes_available: bool,
        limit: nat,
        now: I,
    },
    /// The connection is kept from stalling, with this many bytes.
    AvoidStall(nat),
}

impl<I> Allowance<I> {
    /// A channel on which nothing has happened.
    pub open spec fn start(capacity: nat, init_send: nat) -> Allowance<I> {
        Allowance {
            sender: SenderView {
                window: SendView {
                    capacity,
                    send_pos: 0,
                    sent: Seq::empty(),
                    pending: Seq::empty(),
                    unacked: Seq::empty(),
                },
                remote_recv_available: init_send,
                unacked: Seq::empty(),
            },
            sent: 0,
            furthest: init_send as int,
        }
    }

    /// Whether `event` can happen. A window end must lie less than 2^31 positions away from what was
    /// sent.
    pub open spec fn can(self, event: Event<I>) -> bool {
        match event {
            Event::Write(data) => true,
            Event::Send { limit, now } => limit >= 10 && self.sender.next_amount(limit) > 0,
            Event::Resend { index, now } => 0 <= index < self.sender.unacked.len(),
            Event::Ack { window_end, limit, .. } => limit >= 10 && near(window_end, self.sent),
            Event::AvoidStall(init_send) => true,
        }
    }

    /// The sending side after `event`.
    pub open spec fn next(self, event: Event<I>) -> SenderView<I> {
        match event {
            Event::Write(data) => SenderView {
                window: self.sender.window.written(data),
                ..self.sender
            },
            Event::Send { limit, now } => self.sender.after_send(limit, now),
            Event::Resend { index, now } => self.sender.after_resend(index, now),
            Event::Ack { start, end, window_end, bytes_available, limit, now } => {
                self.sender.answering(
                    advance(0, window_end),
                    bytes_available,
                    limit,
                    now,
                ).after_ack(start, end)
            },
            Event::AvoidStall(init_send) => self.sender.unstalled(init_send),
        }
    }

    /// The state after `event`. What leaves the pending data is sent.
    pub open spec fn after(self, event: Event<I>) -> Allowance<I> {
        let sender = self.next(event);
        Allowance {
            sender,
            sent: match event {
                Event::Write(_) => self.sent,
                _ => self.sent + self.sender.window.pending.len() - sender.window.pending.len(),
            },
            furthest: match event {
                Event::Ack { window_end, .. } => if window_end > self.furthest {
                    window_end
                } else {
                    self.furthest
                },
                Event::AvoidStall(init_send) => if self.sender.unacked.len() == 0 && self.sent
                    >= self.furthest {
                    self.sent + init_send
                } else {
                    self.furthest
                },
                _ => self.furthest,
            },
        }
    }

    /// Every event of `events` can happen after those before it.
    pub open spec fn can_all(self, events: Seq<Event<I>>) -> bool
        decreases events.len(),
    {
        events.len() == 0 || (self.can_all(events.drop_last()) && self.after_all(
            events.drop_last(),
        ).can(events.last()))
    }

    /// The state after all of `events`.
    pub open spec fn after_all(self, events: Seq<Event<I>>) -> Allowance<I>
        decreases events.len(),
    {
        if events.len() == 0 {
            self
        } else {
            self.after_all(events.drop_last()).after(events.last())
        }
    }

    /// What the remote is believed to be ready for is what lies between what was sent and how far the
    /// sender may go.
    pub open spec fn valid(self) -> bool {
        &&& self.sender.window.send_pos == advance(0, self.sent)
        &&& self.sent + self.sender.remote_recv_available == self.furthest
    }

    proof fn lemma_learning(self, window_end: int)
        requires
            self.valid(),
            near(window_end, self.sent),
        ensures
            self.sent + self.sender.learning(advance(0, window_end)).remote_recv_available == (
            if window_end > self.furthest {
                window_end
            } else {
                self.furthest
            }),
    {
        lemma_order_from_base(0, self.sent, window_end);
    }

    proof fn lemma_send(self, limit: nat, now: I)
        requires
            self.valid(),
            limit >= 10,
        ensures
            ({
                let next = self.sender.after_send(limit, now);
                let amount = self.sender.window.pending.len() - next.window.pending.len();
                &&& next.window.send_pos == advance(0, self.sent + amount)
                &&& self.sent + amount + next.remote_recv_available == self.furthest
            }),
    {
        lemma_advance_twice(0, self.sent, self.sender.next_amount(limit) as int);
    }

    proof fn lemma_event(self, event: Event<I>)
        requires
            self.valid(),
            self.can(event),
        ensures
            self.after(event).valid(),
    {
        match event {
            Event::Send { limit, now } => {
                self.lemma_send(limit, now);
            },
            Event::Ack { start, end, window_end, bytes_available, limit, now } => {
                self.lemma_learning(window_end);
                let learned = Allowance {
                    sender: self.sender.learning(advance(0, window_end)),
                    furthest: self.after(event).furthest,
                    ..self
                };
                learned.lemma_send(limit, now);
            },
            _ => {},
        }
    }
}

/// Flow control: over any writes, sends, resends, acknowledgements and stalls, what was sent plus what the
/// remote is believed to be ready for is exactly the furthest of the initial allowance, the window ends
/// that the remote has advertised, and the allowances that were given when stalled. So nothing is sent
/// past that, and a window end that was advertised before does not allow more.
pub proof fn law_flow_control<I>(capacity: nat, init_send: nat, events: Seq<Event<I>>)
    requires
        Allowance::<I>::start(capacity, init_send).can_all(events),
    ensures
        ({
            let end = Allowance::<I>::start(capacity, init_send).after_all(events);
            &&& end.sent + end.sender.remote_recv_available == end.furthest
            &&& end.sent <= end.furthest
            &&& end.sender.window.send_pos == advance(0, end.sent)
        }),
{
    lemma_allowed(capacity, init_send, events);
}

proof fn lemma_allowed<I>(capacity: nat, init_send: nat, events: Seq<Event<I>>)
    requires
        Allowance::<I>::start(capacity, init_send).can_all(events),
    ensures
        Allowance::<I>::start(capacity, init_send).after_all(events).valid(),
    decreases events.len(),
{
    let start = Allowance::<I>::start(capacity, init_send);
    if events.len() > 0 {
        lemma_allowed(capacity, init_send, events.drop_last());
        start.after_all(events.drop_last()).lemma_event(events.last());
    }
}

/// How far the sender may go never shrinks, and reaches every window end that was advertised.
proof fn lemma_reaches<I>(capacity: nat, init_send: nat, events: Seq<Event<I>>, i: int)
    requires
        Allowance::<I>::start(capacity, init_send).can_all(events),
        0 <= i < events.len(),
        events[i] is Ack,
    ensures
        events[i]->window_end <= Allowance::<I>::start(capacity, init_send).after_all(
            events,
        ).furthest,
    decreases events.len(),
{
    let start = Allowance::<I>::start(capacity, init_send);
    let earlier = events.drop_last();
    lemma_allowed(capacity, init_send, earlier);
    if i < earlier.len() {
        assert(earlier[i] == events[i]);
        lemma_reaches(capacity, init_send, earlier, i);
    }
}

/// An acknowledgement with a window end that was advertised before allows nothing more: what was sent plus
/// what the remote is believed to be ready for stays as it was, also if other window ends and stalls came
/// in between.
pub proof fn law_repeated_window_end_allows_nothing<I>(
    capacity: nat,
    init_send: nat,
    events: Seq<Event<I>>,
    i: int,
)
    requires
        Allowance::<I>::start(capacity, init_send).can_all(events),
        0 <= i < events.len() - 1,
        events[i] is Ack,
        events.last() is Ack,
        events.last()->window_end == events[i]->window_end,
    ensures
        ({
            let start = Allowance::<I>::start(capacity, init_send);
            let before = start.after_all(events.drop_last());
            let after = start.after_all(events);
            &&& after.furthest == before.furthest
            &&& after.sent + after.sender.remote_recv_available == before.sent
                + before.sender.remote_recv_available
        }),
{
    let earlier = events.drop_last();
    assert(earlier[i] == events[i]);
    lemma_reaches(capacity, init_send, earlier, i);
    lemma_allowed(capacity, init_send, earlier);
    lemma_allowed(capacity, init_send, events);
}

/// Being told the same window end again changes nothing, however often that happens, and of two window
/// ends the further one counts.
pub proof fn law_window_end_counts_once<I>(sender: SenderView<I>, window_end: StreamPos)
    ensures
        sender.learning(window_end).learning(window_end) == sender.learning(window_end),
        sender.learning(window_end).remote_recv_available >= sender.remote_recv_available,
        sender.learning(window_end).window == sender.window,
        sender.learning(window_end).unacked == sender.unacked,
{
}

/// A packet of new data holds as much as it can: all that is pending, all that the remote is ready for, as
/// much as the packet has room for, or as much as its length can tell. It holds the pending bytes in
/// order, at the position where they belong.
pub proof fn law_send_fills_packet<I>(sender: SenderView<I>, limit: nat, now: I)
    requires
        limit >= 10,
    ensures
        ({
            let packet = sender.next_packet(limit);
            let next = sender.after_send(limit, now);
            let amount = packet.len() - 6;
            &&& 0 <= amount <= sender.window.pending.len()
            &&& amount <= sender.remote_recv_available
            &&& amount <= 32767
            &&& packet.len() <= limit
            &&& amount == sender.window.pending.len() || amount == sender.remote_recv_available
                || amount == 32767 || packet.len() == limit
            &&& parsed(packet) == Some(Segment::Data { start: sender.window.send_pos })
            &&& packet.skip(6) + next.window.pending == sender.window.pending
            &&& next.window.sent == sender.window.sent + packet.skip(6)
            &&& next.window.send_pos == advance(sender.window.send_pos, amount)
            &&& next.remote_recv_available == sender.remote_recv_available - amount
            &&& next.unacked.len() == sender.unacked.len() + 1
            &&& next.unacked.drop_last() == sender.unacked
            &&& next.unacked.last().start == sender.window.send_pos
            &&& next.unacked.last().end == advance(sender.window.send_pos, amount)
            &&& next.unacked.last().last_sent == Some(now)
            &&& !next.unacked.last().retransmit
            &&& sender.next_amount(limit) == amount
        }),
{
    let n = sender.next_amount(limit) as int;
    let data = sender.window.pending.take(n);
    let packet = sender.next_packet(limit);
    law_parse_data_packet(sender.window.send_pos, data);
    assert(packet.len() == 6 + n);
    assert(packet.skip(6) =~= data);
    assert(packet.skip(6) + sender.window.pending.skip(n) =~= sender.window.pending);
    assert(sender.after_send(limit, now).unacked.drop_last() =~= sender.unacked);
}

/// New data is sent in answer to an acknowledgement exactly if the remote was not ready for any before and
/// is now, and there is data and bandwidth for it.
pub proof fn law_answer_when_ready_again<I>(
    sender: SenderView<I>,
    window_end: StreamPos,
    bytes_available: bool,
    limit: nat,
    now: I,
)
    requires
        limit >= 10,
    ensures
        ({
            let learned = sender.learning(window_end);
            let next = sender.answering(window_end, bytes_available, limit, now);
            &&& sender.answers(window_end, bytes_available, limit) <==> {
                &&& sender.remote_recv_available == 0
                &&& learned.remote_recv_available > 0
                &&& bytes_available
                &&& sender.window.pending.len() > 0
            }
            &&& next == (if sender.answers(window_end, bytes_available, limit) {
                learned.after_send(limit, now)
            } else {
                learned
            })
        }),
{
}

/// The connection is kept from stalling exactly if nothing is unacked and the remote is not believed to be
/// ready for anything, and nothing else changes.
pub proof fn law_stall_gives_allowance<I>(sender: SenderView<I>, init_send: nat)
    ensures
        sender.unstalled(init_send).window == sender.window,
        sender.unstalled(init_send).unacked == sender.unacked,
        sender.unacked.len() == 0 && sender.remote_recv_available == 0 ==> sender.unstalled(
            init_send,
        ).remote_recv_available == init_send,
        sender.unacked.len() > 0 || sender.remote_recv_available > 0 ==> sender.unstalled(init_send)
            == sender,
{
}

} // verus!
