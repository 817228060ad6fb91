//! What a pair of compressed channels promises: the messages that are sent over one of them are what
//! the other one receives, in the same order.

use vstd::prelude::*;

use crate::chunk::{
    joined, law_chunk_arrives, packed, packed_len, receiving, transmits, unpacked,
    unpacked_len, ChunkRecvSide, ChunkSendSide, Outcome, HEADER_LEN,
};
use crate::codec::decode_u16;
use crate::reliable_channel::reliability::Flow;
use crate::reliable_channel::{Error, Status};
use crate::stream_buffer::{law_fill_keeps_arrived, moved, RecvSide, SendSide};
use crate::windows::recv::RecvView;
use crate::windows::send::SendView;

verus! {

/// How the chunks of a channel are made.
pub struct Format {
    /// The largest length of a chunk.
    pub max: nat,
    /// What the transmitted length is less than the length of a chunk.
    pub bias: nat,
    /// Whether a chunk that is too long is told from one that is corrupt.
    pub strict: bool,
}

/// All messages of `groups`, one after the other.
pub open spec fn ungrouped(groups: Seq<Seq<Seq<u8>>>) -> Seq<Seq<u8>>
    decreases groups.len(),
{
    if groups.len() == 0 {
        Seq::empty()
    } else {
        ungrouped(groups.drop_last()) + groups.last()
    }
}

/// No message is empty.
pub open spec fn no_empty(msgs: Seq<Seq<u8>>) -> bool {
    forall|i: int| 0 <= i < msgs.len() ==> (#[trigger] msgs[i]).len() > 0
}

impl Format {
    /// What is transmitted for groups of messages, each of which is a chunk.
    pub open spec fn frames(self, groups: Seq<Seq<Seq<u8>>>) -> Seq<Seq<u8>> {
        Seq::new(groups.len(), |i: int| packed(joined(groups[i]), self.bias))
    }

    /// Each of `groups` is a chunk, and what is transmitted stands for it.
    pub open spec fn fits(self, groups: Seq<Seq<Seq<u8>>>) -> bool {
        forall|i: int| #![trigger groups[i]]
            0 <= i < groups.len() ==> {
                &&& no_empty(groups[i])
                &&& 0 < joined(groups[i]).len() <= self.max
                &&& transmits(packed(joined(groups[i]), self.bias), joined(groups[i]), self.bias)
            }
    }
}

/// Appending joins at the end.
proof fn lemma_joined_push(seqs: Seq<Seq<u8>>, last: Seq<u8>)
    ensures
        joined(seqs.push(last)) == joined(seqs) + last,
    decreases seqs.len(),
{
    let all = seqs.push(last);
    if seqs.len() == 0 {
        assert(all.skip(1) =~= Seq::<Seq<u8>>::empty());
        assert(joined(all.skip(1)) =~= Seq::<u8>::empty());
        assert(joined(all) =~= joined(seqs) + last);
    } else {
        assert(all.skip(1) =~= seqs.skip(1).push(last));
        lemma_joined_push(seqs.skip(1), last);
        assert(joined(all) =~= joined(seqs) + last);
    }
}

/// What the first `n` of `seqs` join to is followed by the next one and the rest.
proof fn lemma_joined_at(seqs: Seq<Seq<u8>>, n: int)
    requires
        0 <= n < seqs.len(),
    ensures
        joined(seqs) == joined(seqs.take(n)) + seqs[n] + joined(seqs.skip(n + 1)),
        joined(seqs.take(n + 1)) == joined(seqs.take(n)) + seqs[n],
    decreases seqs.len(),
{
    assert(seqs.take(n + 1) =~= seqs.take(n).push(seqs[n]));
    lemma_joined_push(seqs.take(n), seqs[n]);
    if n == 0 {
        assert(seqs.take(0) =~= Seq::<Seq<u8>>::empty());
        assert(joined(seqs) =~= joined(seqs.take(n)) + seqs[n] + joined(seqs.skip(n + 1)));
    } else {
        let rest = seqs.skip(1);
        lemma_joined_at(rest, n - 1);
        assert(seqs.take(n).skip(1) =~= rest.take(n - 1));
        assert(seqs.skip(n + 1) =~= rest.skip(n));
        assert(joined(seqs) =~= joined(seqs.take(n)) + seqs[n] + joined(seqs.skip(n + 1)));
    }
}

/// Messages that are not empty do not join to nothing.
proof fn lemma_joined_empty(msgs: Seq<Seq<u8>>)
    requires
        no_empty(msgs),
        joined(msgs).len() == 0,
    ensures
        msgs.len() == 0,
{
    if msgs.len() > 0 {
        assert(msgs[0].len() > 0);
    }
}

/// The messages of the first groups are the first messages.
proof fn lemma_ungrouped_prefix(groups: Seq<Seq<Seq<u8>>>, n: int)
    requires
        0 <= n <= groups.len(),
    ensures
        ungrouped(groups.take(n)).is_prefix_of(ungrouped(groups)),
    decreases groups.len(),
{
    if n == groups.len() {
        assert(groups.take(n) =~= groups);
    } else {
        lemma_ungrouped_prefix(groups.drop_last(), n);
        assert(groups.drop_last().take(n) =~= groups.take(n));
    }
}

/// Asking for a message does not stop a channel that is running.
proof fn lemma_receiving_keeps_running(before: ChunkRecvSide, format: Format)
    requires
        before.side.status == Status::Running,
    ensures
        receiving(before, format.max, format.bias, format.strict).1.side.status == Status::Running,
    decreases before.side.arrived().len(),
{
    let max = format.max;
    let bias = format.bias;
    let side = before.side.after_frame(max, bias);
    if before.unread.len() == 0 && before.side.frame_result(max, bias) matches Ok(true) {
        law_fill_keeps_arrived(before.side, before.side.frame_wanted(max, bias));
        if let (Some(chunk), Some(len)) = (unpacked(side.incoming), unpacked_len(side.incoming)) {
            if len <= max {
                let next = ChunkRecvSide {
                    unread: chunk,
                    side: RecvSide { incoming: Seq::empty(), ..side },
                };
                lemma_receiving_keeps_running(next, format);
            }
        }
    }
}

/// The sending side of a compressed channel, with what it has been used for.
pub struct Sending {
    pub side: ChunkSendSide,
    /// The bytes that were written to the reliable channel.
    pub written: Seq<u8>,
    /// The messages that were sent.
    pub sent: Seq<Seq<u8>>,
}

/// What can happen on the sending side.
pub enum SendEvent {
    /// A message is handed to the channel.
    Send(Seq<u8>),
    Flush,
    /// The reliable channel changes by itself.
    Channel(SendView, Status),
}

impl Sending {
    /// A channel that was just opened.
    pub open spec fn start(window: SendView, status: Status) -> Sending {
        Sending {
            side: ChunkSendSide {
                queued: Seq::empty(),
                side: SendSide { window, status, outgoing: Seq::empty() },
            },
            written: Seq::empty(),
            sent: Seq::empty(),
        }
    }

    /// Nothing waits to be written.
    pub open spec fn all_written(self) -> bool {
        self.side.queued.len() == 0 && self.side.side.outgoing.len() == 0
    }

    /// Whether `event` can happen. What is packed stands for what was queued, as the call that packs it
    /// ensures.
    pub open spec fn can(self, format: Format, event: SendEvent) -> bool {
        match event {
            SendEvent::Send(msg) => {
                &&& 0 < msg.len() <= format.max
                &&& self.side.queued.len() + msg.len() > format.max ==> self.side.packs_faithfully(
                    format.bias,
                )
            },
            SendEvent::Flush => self.side.packs_faithfully(format.bias),
            SendEvent::Channel(window, status) => true,
        }
    }

    /// The state after `event`.
    pub open spec fn after(self, format: Format, event: SendEvent) -> Sending {
        let drained = if self.side.queued.len() > 0 {
            moved(self.side.side)
        } else {
            Seq::empty()
        };
        match event {
            SendEvent::Send(msg) => Sending {
                side: self.side.after_send(msg, format.max, format.bias),
                written: if self.side.queued.len() + msg.len() > format.max {
                    self.written + drained
                } else {
                    self.written
                },
                sent: if self.side.send_result(msg.len(), format.max) == Ok::<bool, Error>(true) {
                    self.sent.push(msg)
                } else {
                    self.sent
                },
            },
            SendEvent::Flush => Sending {
                side: self.side.after_flush(format.bias),
                written: self.written + drained + (if self.side.pack_result() == Ok::<bool, Error>(
                    true,
                ) {
                    moved(self.side.after_pack(format.bias).side)
                } else {
                    Seq::empty()
                }),
                ..self
            },
            SendEvent::Channel(window, status) => Sending {
                side: ChunkSendSide {
                    side: SendSide { window, status, ..self.side.side },
                    ..self.side
                },
                ..self
            },
        }
    }

    /// Every event of `events` can happen after those before it.
    pub open spec fn can_all(self, format: Format, events: Seq<SendEvent>) -> bool
        decreases events.len(),
    {
        events.len() == 0 || (self.can_all(format, events.drop_last()) && self.after_all(
            format,
            events.drop_last(),
        ).can(format, events.last()))
    }

    /// The state after all of `events`.
    pub open spec fn after_all(self, format: Format, events: Seq<SendEvent>) -> Sending
        decreases events.len(),
    {
        if events.len() == 0 {
            self
        } else {
            self.after_all(format, events.drop_last()).after(format, events.last())
        }
    }

    /// What was written, or is going to be, is what is transmitted for `groups` of the messages that were
    /// sent, and the other messages are `waiting` to be packed.
    spec fn splits(
        self,
        format: Format,
        groups: Seq<Seq<Seq<u8>>>,
        waiting: Seq<Seq<u8>>,
    ) -> bool {
        &&& format.fits(groups)
        &&& no_empty(waiting)
        &&& self.written + self.side.side.outgoing == joined(format.frames(groups))
        &&& self.side.queued == joined(waiting)
        &&& self.side.queued.len() <= format.max
        &&& self.sent == ungrouped(groups) + waiting
    }

    /// Packing the waiting messages makes a group of them.
    proof fn lemma_pack(
        self,
        format: Format,
        groups: Seq<Seq<Seq<u8>>>,
        waiting: Seq<Seq<u8>>,
    ) -> (result: (Seq<Seq<Seq<u8>>>, Seq<Seq<u8>>))
        requires
            self.splits(format, groups, waiting),
            self.side.packs_faithfully(format.bias),
        ensures
            ({
                let packed_up = Sending {
                    side: self.side.after_pack(format.bias),
                    written: self.written + (if self.side.queued.len() > 0 {
                        moved(self.side.side)
                    } else {
                        Seq::empty()
                    }),
                    sent: self.sent,
                };
                &&& packed_up.splits(format, result.0, result.1)
                &&& self.side.pack_result() == Ok::<bool, Error>(true) ==> result.1.len() == 0
                    && packed_up.side.queued.len() == 0
            }),
    {
        let side = self.side.side;
        let all = self.written + side.outgoing;
        if self.side.queued.len() == 0 {
            lemma_joined_empty(waiting);
            assert(self.written + Seq::<u8>::empty() =~= self.written);
            (groups, waiting)
        } else if side.drain_result() == Ok::<bool, Error>(true) {
            let more = groups.push(waiting);
            let frame = packed(self.side.queued, format.bias);
            assert(moved(side) =~= side.outgoing);
            assert(format.frames(more) =~= format.frames(groups).push(frame));
            lemma_joined_push(format.frames(groups), frame);
            assert(more.drop_last() =~= groups);
            assert(ungrouped(more) + Seq::<Seq<u8>>::empty() =~= ungrouped(groups) + waiting);
            assert(format.fits(more)) by {
                assert forall|i: int| #![trigger more[i]] 0 <= i < more.len() implies {
                    &&& no_empty(more[i])
                    &&& 0 < joined(more[i]).len() <= format.max
                    &&& transmits(
                        packed(joined(more[i]), format.bias),
                        joined(more[i]),
                        format.bias,
                    )
                } by {
                    if i < groups.len() {
                        assert(more[i] == groups[i]);
                    }
                }
            }
            assert(joined(Seq::<Seq<u8>>::empty()) =~= Seq::<u8>::empty());
            (more, Seq::empty())
        } else {
            assert(self.written + moved(side) + side.drained().outgoing =~= all);
            (groups, waiting)
        }
    }

    proof fn lemma_event(
        self,
        format: Format,
        event: SendEvent,
        groups: Seq<Seq<Seq<u8>>>,
        waiting: Seq<Seq<u8>>,
    ) -> (result: (Seq<Seq<Seq<u8>>>, Seq<Seq<u8>>))
        requires
            self.splits(format, groups, waiting),
            self.can(format, event),
        ensures
            self.after(format, event).splits(format, result.0, result.1),
    {
        let next = self.after(format, event);
        match event {
            SendEvent::Send(msg) => {
                let full = self.side.queued.len() + msg.len() > format.max;
                let (groups, waiting) = if full {
                    self.lemma_pack(format, groups, waiting)
                } else {
                    (groups, waiting)
                };
                if self.side.send_result(msg.len(), format.max) == Ok::<bool, Error>(true) {
                    lemma_joined_push(waiting, msg);
                    assert(next.sent =~= ungrouped(groups) + waiting.push(msg));
                    (groups, waiting.push(msg))
                } else {
                    (groups, waiting)
                }
            },
            SendEvent::Flush => {
                let (groups, waiting) = self.lemma_pack(format, groups, waiting);
                let packed_up = self.side.after_pack(format.bias);
                if self.side.pack_result() == Ok::<bool, Error>(true) {
                    assert(moved(packed_up.side) + packed_up.side.drained().outgoing
                        =~= packed_up.side.outgoing);
                    assert(next.written + next.side.side.outgoing =~= joined(
                        format.frames(groups),
                    ));
                } else {
                    assert(next.written + next.side.side.outgoing =~= joined(
                        format.frames(groups),
                    ));
                }
                (groups, waiting)
            },
            SendEvent::Channel(window, status) => (groups, waiting),
        }
    }

    /// How the messages that were sent are divided into chunks.
    proof fn lemma_splits(window: SendView, status: Status, format: Format, events: Seq<SendEvent>)
        -> (result: (Seq<Seq<Seq<u8>>>, Seq<Seq<u8>>))
        requires
            Sending::start(window, status).can_all(format, events),
        ensures
            Sending::start(window, status).after_all(format, events).splits(
                format,
                result.0,
                result.1,
            ),
        decreases events.len(),
    {
        let start = Sending::start(window, status);
        if events.len() == 0 {
            let groups = Seq::<Seq<Seq<u8>>>::empty();
            let waiting = Seq::<Seq<u8>>::empty();
            assert(start.written + start.side.side.outgoing =~= joined(format.frames(groups)));
            assert(start.side.queued =~= joined(waiting));
            assert(start.sent =~= ungrouped(groups) + waiting);
            (groups, waiting)
        } else {
            let (groups, waiting) = Sending::lemma_splits(
                window,
                status,
                format,
                events.drop_last(),
            );
            start.after_all(format, events.drop_last()).lemma_event(
                format,
                events.last(),
                groups,
                waiting,
            )
        }
    }
}

/// A flush that is done leaves nothing to be written.
pub proof fn law_flush_writes_all(sending: Sending, format: Format)
    requires
        sending.side.flush_result(format.bias) == Ok::<bool, Error>(true),
    ensures
        sending.after(format, SendEvent::Flush).all_written(),
{
}

/// The receiving side of a compressed channel, with what it has been used for.
pub struct Receiving {
    pub recv: ChunkRecvSide,
    /// The bytes that ever were ready in the reliable channel.
    pub arrived: Seq<u8>,
    /// The messages that were received.
    pub received: Seq<Seq<u8>>,
}

/// What can happen on the receiving side.
pub enum RecvEvent {
    /// More bytes become ready in the reliable channel.
    Arrive(RecvView),
    /// A message is asked for. If there is one it is taken, and deserializing it tells its length.
    Recv(nat),
}

impl Receiving {
    /// A channel that was just opened and has received nothing.
    pub open spec fn start(window: RecvView) -> Receiving {
        Receiving {
            recv: ChunkRecvSide {
                unread: Seq::empty(),
                side: RecvSide { window, status: Status::Running, incoming: Seq::empty() },
            },
            arrived: Seq::empty(),
            received: Seq::empty(),
        }
    }

    /// What comes of asking for a message.
    pub open spec fn asked(self, format: Format) -> (Outcome, ChunkRecvSide) {
        receiving(self.recv, format.max, format.bias, format.strict)
    }

    /// Whether `event` can happen, where `sent` are the messages that deserializing tells the lengths
    /// of.
    pub open spec fn can(self, format: Format, sent: Seq<Seq<u8>>, event: RecvEvent) -> bool {
        match event {
            RecvEvent::Arrive(window) => self.recv.side.window.ready.is_prefix_of(window.ready),
            RecvEvent::Recv(len) => self.received.len() < sent.len() ==> len
                == sent[self.received.len() as int].len(),
        }
    }

    /// The state after `event`.
    pub open spec fn after(self, format: Format, event: RecvEvent) -> Receiving {
        match event {
            RecvEvent::Arrive(window) => Receiving {
                recv: ChunkRecvSide {
                    side: RecvSide { window, ..self.recv.side },
                    ..self.recv
                },
                arrived: self.arrived + window.ready.skip(
                    self.recv.side.window.ready.len() as int,
                ),
                ..self
            },
            RecvEvent::Recv(len) => {
                let (outcome, next) = self.asked(format);
                if outcome is Ready {
                    Receiving {
                        recv: ChunkRecvSide { unread: next.unread.skip(len as int), ..next },
                        received: self.received.push(next.unread.take(len as int)),
                        ..self
                    }
                } else {
                    Receiving { recv: next, ..self }
                }
            },
        }
    }

    /// Every event of `events` can happen after those before it.
    pub open spec fn can_all(
        self,
        format: Format,
        sent: Seq<Seq<u8>>,
        events: Seq<RecvEvent>,
    ) -> bool
        decreases events.len(),
    {
        events.len() == 0 || (self.can_all(format, sent, events.drop_last()) && self.after_all(
            format,
            events.drop_last(),
        ).can(format, sent, events.last()))
    }

    /// The state after all of `events`.
    pub open spec fn after_all(self, format: Format, events: Seq<RecvEvent>) -> Receiving
        decreases events.len(),
    {
        if events.len() == 0 {
            self
        } else {
            self.after_all(format, events.drop_last()).after(format, events.last())
        }
    }

    /// What was received are the messages of the first `done` of `groups`, but for `rest`, and what has
    /// arrived since is what is transmitted for the other groups.
    spec fn follows(
        self,
        format: Format,
        groups: Seq<Seq<Seq<u8>>>,
        done: int,
        rest: Seq<Seq<u8>>,
    ) -> bool {
        let frames = format.frames(groups);
        let used = joined(frames.take(done)).len() as int;
        &&& format.fits(groups)
        &&& self.arrived.is_prefix_of(joined(frames))
        &&& 0 <= done <= groups.len()
        &&& used <= self.arrived.len()
        &&& self.recv.side.status == Status::Running
        &&& self.recv.side.arrived() == self.arrived.skip(used)
        &&& self.recv.side.incoming.len() <= (if done < groups.len() {
            frames[done].len()
        } else {
            0
        })
        &&& no_empty(rest)
        &&& self.recv.unread == joined(rest)
        &&& self.received + rest == ungrouped(groups.take(done))
    }

    /// As long as the next chunk has not arrived completely, asking for a message leaves everything in
    /// its place.
    proof fn lemma_pending(self, format: Format, groups: Seq<Seq<Seq<u8>>>, done: int)
        requires
            self.follows(format, groups, done, Seq::empty()),
            done < groups.len() ==> self.recv.side.arrived().len() < format.frames(
                groups,
            )[done].len(),
        ensures
            self.asked(format).0 == Outcome::Pending,
            self.after(format, RecvEvent::Recv(0)).follows(format, groups, done, Seq::empty()),
    {
        let frames = format.frames(groups);
        let side = self.recv.side;
        let arrived = side.arrived();
        let used = joined(frames.take(done)).len() as int;
        assert(joined(Seq::<Seq<u8>>::empty()).len() == 0);
        if done < groups.len() {
            let frame = frames[done];
            assert(transmits(frame, joined(groups[done]), format.bias));
            lemma_joined_at(frames, done);
            assert(arrived =~= frame.take(arrived.len() as int)) by {
                assert forall|k: int| 0 <= k < arrived.len() implies arrived[k] == frame[k] by {
                    assert(self.arrived[used + k] == joined(frames)[used + k]);
                }
            }
            if arrived.len() >= HEADER_LEN {
                assert(decode_u16(arrived.skip(1)) == decode_u16(frame.skip(1)));
                assert(packed_len(arrived, format.bias) == frame.len());
            }
        } else {
            assert(frames.take(done) =~= frames);
            assert(arrived.len() == 0);
        }
        law_fill_keeps_arrived(side, side.frame_wanted(format.max, format.bias));
    }

    /// The message that is taken is the next one of the chunk.
    proof fn lemma_take(
        self,
        format: Format,
        groups: Seq<Seq<Seq<u8>>>,
        waiting: Seq<Seq<u8>>,
        done: int,
        rest: Seq<Seq<u8>>,
        len: nat,
    )
        requires
            self.follows(format, groups, done, rest),
            self.can(format, ungrouped(groups) + waiting, RecvEvent::Recv(len)),
            self.recv.unread.len() > 0,
        ensures
            self.asked(format) == (Outcome::Ready, self.recv),
            self.received.len() < ungrouped(groups).len(),
            len == ungrouped(groups)[self.received.len() as int].len() <= self.recv.unread.len(),
            self.recv.unread.take(len as int) == ungrouped(groups)[self.received.len() as int],
            self.after(format, RecvEvent::Recv(len)).follows(format, groups, done, rest.skip(1)),
    {
        let next = self.after(format, RecvEvent::Recv(len));
        lemma_ungrouped_prefix(groups, done);
        assert(rest.len() > 0);
        assert((self.received + rest)[self.received.len() as int] == rest[0]);
        assert((ungrouped(groups) + waiting)[self.received.len() as int] == rest[0]);
        assert(next.recv.unread =~= joined(rest.skip(1)));
        assert(self.recv.unread.take(len as int) =~= rest[0]);
        assert(next.received + rest.skip(1) =~= self.received + rest);
        assert(no_empty(rest.skip(1)));
    }

    /// A chunk that has arrived completely is opened, so that its messages can be taken.
    proof fn lemma_open(self, format: Format, groups: Seq<Seq<Seq<u8>>>, done: int) -> (opened:
        Receiving)
        requires
            self.follows(format, groups, done, Seq::empty()),
            done < groups.len(),
            self.recv.side.arrived().len() >= format.frames(groups)[done].len(),
        ensures
            self.asked(format) == (Outcome::Ready, opened.recv),
            opened.asked(format) == self.asked(format),
            opened.arrived == self.arrived,
            opened.received == self.received,
            opened.recv.unread.len() > 0,
            opened.follows(format, groups, done + 1, groups[done]),
    {
        let frames = format.frames(groups);
        let used = joined(frames.take(done)).len() as int;
        let frame = frames[done];
        let group = groups[done];
        let after = self.recv.side.arrived().skip(frame.len() as int);
        assert(joined(Seq::<Seq<u8>>::empty()).len() == 0);
        assert(transmits(frame, joined(group), format.bias));
        lemma_joined_at(frames, done);
        assert(self.recv.side.arrived() =~= frame + after) by {
            assert forall|k: int| 0 <= k < frame.len() implies self.recv.side.arrived()[k]
                == frame[k] by {
                assert(self.arrived[used + k] == joined(frames)[used + k]);
            }
        }
        law_chunk_arrives(
            self.recv,
            frame,
            joined(group),
            after,
            format.max,
            format.bias,
            format.strict,
        );
        lemma_receiving_keeps_running(self.recv, format);
        let opened = Receiving { recv: self.asked(format).1, ..self };
        assert(groups.take(done + 1).drop_last() =~= groups.take(done));
        assert(self.received + Seq::<Seq<u8>>::empty() =~= self.received);
        assert(ungrouped(groups.take(done + 1)) =~= self.received + group);
        assert(opened.recv.side.arrived() =~= self.arrived.skip(
            joined(frames.take(done + 1)).len() as int,
        ));
        opened
    }

    proof fn lemma_recv(
        self,
        format: Format,
        groups: Seq<Seq<Seq<u8>>>,
        waiting: Seq<Seq<u8>>,
        done: int,
        rest: Seq<Seq<u8>>,
        len: nat,
    ) -> (result: (int, Seq<Seq<u8>>))
        requires
            self.follows(format, groups, done, rest),
            self.can(format, ungrouped(groups) + waiting, RecvEvent::Recv(len)),
        ensures
            self.after(format, RecvEvent::Recv(len)).follows(
                format,
                groups,
                result.0,
                result.1,
            ),
            self.arrived == joined(format.frames(groups)) && self.received.len() < ungrouped(
                groups,
            ).len() ==> {
                &&& self.asked(format).0 == Outcome::Ready
                &&& len <= self.asked(format).1.unread.len()
                &&& self.asked(format).1.unread.take(len as int) == ungrouped(
                    groups,
                )[self.received.len() as int]
            },
    {
        let frames = format.frames(groups);
        if self.recv.unread.len() > 0 {
            self.lemma_take(format, groups, waiting, done, rest, len);
            (done, rest.skip(1))
        } else {
            lemma_joined_empty(rest);
            assert(rest =~= Seq::<Seq<u8>>::empty());
            if done < groups.len() && self.recv.side.arrived().len() >= frames[done].len() {
                let opened = self.lemma_open(format, groups, done);
                opened.lemma_take(format, groups, waiting, done + 1, groups[done], len);
                assert(self.after(format, RecvEvent::Recv(len)) == opened.after(
                    format,
                    RecvEvent::Recv(len),
                ));
                (done + 1, groups[done].skip(1))
            } else {
                self.lemma_pending(format, groups, done);
                assert(self.after(format, RecvEvent::Recv(len)) == self.after(
                    format,
                    RecvEvent::Recv(0),
                ));
                assert(self.received + rest =~= self.received);
                if self.arrived == joined(frames) {
                    if done < groups.len() {
                        lemma_joined_at(frames, done);
                    } else {
                        assert(groups.take(done) =~= groups);
                    }
                }
                (done, rest)
            }
        }
    }

    /// How far the messages that were sent have been received.
    proof fn lemma_follows(
        window: RecvView,
        format: Format,
        groups: Seq<Seq<Seq<u8>>>,
        waiting: Seq<Seq<u8>>,
        events: Seq<RecvEvent>,
    ) -> (result: (int, Seq<Seq<u8>>))
        requires
            format.fits(groups),
            window.ready.len() == 0,
            Receiving::start(window).can_all(format, ungrouped(groups) + waiting, events),
            Receiving::start(window).after_all(format, events).arrived.is_prefix_of(
                joined(format.frames(groups)),
            ),
        ensures
            Receiving::start(window).after_all(format, events).follows(
                format,
                groups,
                result.0,
                result.1,
            ),
        decreases events.len(),
    {
        let start = Receiving::start(window);
        let frames = format.frames(groups);
        if events.len() == 0 {
            assert(frames.take(0) =~= Seq::<Seq<u8>>::empty());
            assert(groups.take(0) =~= Seq::<Seq<Seq<u8>>>::empty());
            assert(start.recv.side.arrived() =~= start.arrived.skip(0));
            assert(start.received + Seq::<Seq<u8>>::empty() =~= ungrouped(groups.take(0)));
            assert(joined(Seq::<Seq<u8>>::empty()) =~= Seq::<u8>::empty());
            (0, Seq::empty())
        } else {
            let before = start.after_all(format, events.drop_last());
            let end = start.after_all(format, events);
            assert(before.arrived.is_prefix_of(end.arrived));
            let (done, rest) = Receiving::lemma_follows(
                window,
                format,
                groups,
                waiting,
                events.drop_last(),
            );
            match events.last() {
                RecvEvent::Arrive(window) => {
                    let used = joined(frames.take(done)).len() as int;
                    let ready = before.recv.side.window.ready;
                    let more = window.ready.skip(ready.len() as int);
                    assert(window.ready =~= ready + more);
                    assert(end.recv.side.arrived() =~= before.recv.side.arrived() + more);
                    assert(end.arrived.skip(used) =~= before.arrived.skip(used) + more);
                    (done, rest)
                },
                RecvEvent::Recv(len) => before.lemma_recv(
                    format,
                    groups,
                    waiting,
                    done,
                    rest,
                    len,
                ),
            }
        }
    }
}

/// Messages that are sent over a compressed channel are received by the other one, in the same order
/// and as they were, whether or not their chunks compress and whatever becomes of the packets on the
/// way. Once everything is written, which a flush does, and has arrived, each message that was not
/// received yet is there when it is asked for.
///
/// No message may serialize to nothing.
pub proof fn law_sent_messages_are_received<I>(
    format: Format,
    send_window: SendView,
    status: Status,
    sends: Seq<SendEvent>,
    flow: Flow<I>,
    recv_window: RecvView,
    receives: Seq<RecvEvent>,
)
    requires
        Sending::start(send_window, status).can_all(format, sends),
        flow.valid(),
        flow.written == Sending::start(send_window, status).after_all(format, sends).written,
        recv_window.ready.len() == 0,
        Receiving::start(recv_window).can_all(
            format,
            Sending::start(send_window, status).after_all(format, sends).sent,
            receives,
        ),
        Receiving::start(recv_window).after_all(format, receives).arrived == flow.written.take(
            flow.ready_len(),
        ),
    ensures
        ({
            let sending = Sending::start(send_window, status).after_all(format, sends);
            let receiving = Receiving::start(recv_window).after_all(format, receives);
            let (outcome, next) = receiving.asked(format);
            &&& receiving.received.is_prefix_of(sending.sent)
            &&& sending.all_written() && flow.ready_len() == flow.written.len()
                && receiving.received.len() < sending.sent.len() ==> {
                let msg = sending.sent[receiving.received.len() as int];
                &&& outcome == Outcome::Ready
                &&& msg.is_prefix_of(next.unread)
            }
        }),
{
    let sending = Sending::start(send_window, status).after_all(format, sends);
    let receiving = Receiving::start(recv_window).after_all(format, receives);
    let (groups, waiting) = Sending::lemma_splits(send_window, status, format, sends);
    assert(receiving.arrived.is_prefix_of(joined(format.frames(groups))));
    let (done, rest) = Receiving::lemma_follows(recv_window, format, groups, waiting, receives);
    lemma_ungrouped_prefix(groups, done);
    assert(receiving.received.is_prefix_of(sending.sent)) by {
        assert(receiving.received.is_prefix_of(receiving.received + rest));
    }
    if sending.all_written() && flow.ready_len() == flow.written.len() && receiving.received.len()
        < sending.sent.len() {
        lemma_joined_empty(waiting);
        assert(sending.sent =~= ungrouped(groups));
        assert(receiving.arrived =~= joined(format.frames(groups)));
        let msg = sending.sent[receiving.received.len() as int];
        let _ = receiving.lemma_recv(format, groups, waiting, done, rest, msg.len());
        assert(msg =~= receiving.asked(format).1.unread.take(msg.len() as int));
    }
}

} // verus!
