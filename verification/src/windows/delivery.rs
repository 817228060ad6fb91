//! What a pair of windows promises: everything that is read was written, in the same order.

use vstd::prelude::*;

use crate::ring_buffer::min_nat;
use crate::windows::recv::{law_read_agrees, law_receive_agrees, RecvView};
use crate::windows::send::{
    law_ack_keeps_stream, law_send_carries_stream, law_write_extends_stream, SendView,
};
use crate::windows::stream::{advance, half, StreamPos, MAX_DISTANCE};

verus! {

/// One direction of a connection: a sending window, a receiving window, and what went in and came
/// out.
pub struct Connection {
    pub origin: StreamPos,
    /// Everything that was accepted by writes.
    pub written: Seq<u8>,
    pub send: SendView,
    pub recv: RecvView,
    /// Everything that was read.
    pub delivered: Seq<u8>,
}

/// What can happen to a connection.
pub enum Step {
    /// Data is written to the sending window.
    Write(Seq<u8>),
    /// Some of the pending data is sent for the first time.
    Send(nat),
    /// A part of what was ever sent arrives. Parts may arrive in any order, any number of times,
    /// or never.
    Arrive { at: nat, len: nat },
    /// Any acknowledgement reaches the sending window.
    Acknowledge(StreamPos, StreamPos),
    /// Some ready bytes are read.
    Read(nat),
}

impl Connection {
    /// The connection before anything has happened.
    pub open spec fn start(capacity: nat, window: nat, origin: StreamPos) -> Connection {
        Connection {
            origin,
            written: Seq::empty(),
            send: SendView {
                capacity,
                send_pos: origin,
                sent: Seq::empty(),
                pending: Seq::empty(),
                unacked: Seq::empty(),
            },
            recv: RecvView {
                recv_pos: origin,
                ready: Seq::empty(),
                ahead: Seq::new(window, |i: int| None),
            },
            delivered: Seq::empty(),
        }
    }

    /// The number of bytes that were ever sent.
    pub open spec fn sent_len(self) -> int {
        self.written.len() - self.send.pending.len()
    }

    /// The number of bytes that were ever ready to be read.
    pub open spec fn ready_len(self) -> int {
        (self.delivered.len() + self.recv.ready.len()) as int
    }

    /// Whether `step` can happen.
    pub open spec fn can(self, step: Step) -> bool {
        match step {
            Step::Write(data) => true,
            Step::Send(n) => 0 < n <= self.send.pending.len(),
            Step::Arrive { at, len } => {
                &&& at + len <= self.sent_len()
                &&& len <= MAX_DISTANCE
                &&& -half() < at - self.ready_len() < half()
            },
            Step::Acknowledge(start, end) => true,
            Step::Read(n) => n <= self.recv.ready.len(),
        }
    }

    /// The connection after `step`.
    pub open spec fn after(self, step: Step) -> Connection {
        match step {
            Step::Write(data) => Connection {
                written: self.written + data.take(min_nat(self.send.room(), data.len()) as int),
                send: self.send.written(data),
                ..self
            },
            Step::Send(n) => Connection { send: self.send.sending(n), ..self },
            Step::Arrive { at, len } => Connection {
                recv: self.recv.received(
                    advance(self.origin, at as int),
                    self.written.subrange(at as int, (at + len) as int),
                ),
                ..self
            },
            Step::Acknowledge(start, end) => Connection {
                send: self.send.acked(start, end),
                ..self
            },
            Step::Read(n) => Connection {
                recv: self.recv.reading(n),
                delivered: self.delivered + self.recv.ready.take(n as int),
                ..self
            },
        }
    }

    /// Every step of `steps` can happen after those before it.
    pub open spec fn can_all(self, steps: Seq<Step>) -> bool
        decreases steps.len(),
    {
        steps.len() == 0 || (self.can_all(steps.drop_last()) && self.after_all(
            steps.drop_last(),
        ).can(steps.last()))
    }

    /// The connection after all of `steps`.
    pub open spec fn after_all(self, steps: Seq<Step>) -> Connection
        decreases steps.len(),
    {
        if steps.len() == 0 {
            self
        } else {
            self.after_all(steps.drop_last()).after(steps.last())
        }
    }

    /// Both windows are valid and in agreement with what was written, and what was read is the
    /// beginning of what was written.
    pub open spec fn valid(self) -> bool {
        &&& self.send.valid()
        &&& self.recv.valid()
        &&& self.send.sends(self.written, self.origin)
        &&& self.recv.agrees(self.written, self.origin, self.delivered.len())
        &&& self.ready_len() <= self.sent_len()
        &&& forall|k: int|
            0 <= k < self.recv.ahead.len() && #[trigger] self.recv.ahead[k] is Some
                ==> self.ready_len() + k < self.sent_len()
        &&& self.delivered == self.written.take(self.delivered.len() as int)
    }

    proof fn lemma_write(self, data: Seq<u8>)
        requires
            self.valid(),
        ensures
            self.after(Step::Write(data)).valid(),
    {
        let next = self.after(Step::Write(data));
        law_write_extends_stream(self.send, self.written, self.origin, data);
        assert(next.delivered =~= next.written.take(next.delivered.len() as int));
        assert(self.recv.ready =~= next.written.subrange(
            self.delivered.len() as int,
            self.ready_len(),
        ));
        assert forall|k: int|
            0 <= k < self.recv.ahead.len() && #[trigger] self.recv.ahead[k] is Some implies {
            &&& self.ready_len() + k < next.written.len()
            &&& self.recv.ahead[k] == Some(next.written[self.ready_len() + k])
        } by {
        }
    }

    proof fn lemma_arrive(self, at: nat, len: nat)
        requires
            self.valid(),
            self.can(Step::Arrive { at, len }),
        ensures
            self.after(Step::Arrive { at, len }).valid(),
    {
        let next = self.after(Step::Arrive { at, len });
        // What arrives is limited to what was sent.
        let sent = self.written.take(self.sent_len());
        assert(self.recv.agrees(sent, self.origin, self.delivered.len())) by {
            assert(self.recv.ready =~= sent.subrange(
                self.delivered.len() as int,
                self.ready_len(),
            ));
        }
        law_receive_agrees(self.recv, sent, self.origin, self.delivered.len(), at as int, len);
        assert(sent.subrange(at as int, (at + len) as int) =~= self.written.subrange(
            at as int,
            (at + len) as int,
        ));
        assert(next.recv.agrees(sent, self.origin, self.delivered.len()));
        assert(next.recv.ready =~= self.written.subrange(
            self.delivered.len() as int,
            next.ready_len(),
        ));
    }

    proof fn lemma_read(self, n: nat)
        requires
            self.valid(),
            self.can(Step::Read(n)),
        ensures
            self.after(Step::Read(n)).valid(),
    {
        let next = self.after(Step::Read(n));
        law_read_agrees(self.recv, self.written, self.origin, self.delivered.len(), n);
        assert(next.delivered =~= next.written.take(next.delivered.len() as int));
        assert forall|k: int|
            0 <= k < next.recv.ahead.len() && #[trigger] next.recv.ahead[k] is Some implies {
            next.ready_len() + k < next.sent_len()
        } by {
            assert(self.recv.ahead[k] is Some);
        }
    }

    /// Every step keeps the connection valid.
    pub proof fn lemma_step(self, step: Step)
        requires
            self.valid(),
            self.can(step),
        ensures
            self.after(step).valid(),
    {
        match step {
            Step::Write(data) => {
                self.lemma_write(data);
            },
            Step::Send(n) => {
                law_send_carries_stream(self.send, self.written, self.origin, n);
            },
            Step::Arrive { at, len } => {
                self.lemma_arrive(at, len);
            },
            Step::Acknowledge(start, end) => {
                law_ack_keeps_stream(self.send, self.written, self.origin, start, end);
            },
            Step::Read(n) => {
                self.lemma_read(n);
            },
        }
    }
}

/// The reliable stream is in order and without loss: whatever is lost, duplicated or reordered on
/// the way, after any steps that can happen the bytes that were read are the first bytes that were
/// written, in the same order, and never more than what was sent.
pub proof fn law_delivery_in_order(
    capacity: nat,
    window: nat,
    origin: StreamPos,
    steps: Seq<Step>,
)
    requires
        0 < capacity <= MAX_DISTANCE,
        0 < window <= MAX_DISTANCE,
        Connection::start(capacity, window, origin).can_all(steps),
    ensures
        ({
            let end = Connection::start(capacity, window, origin).after_all(steps);
            &&& end.valid()
            &&& end.delivered.len() <= end.sent_len() <= end.written.len()
            &&& end.delivered == end.written.take(end.delivered.len() as int)
        }),
    decreases steps.len(),
{
    let start = Connection::start(capacity, window, origin);
    if steps.len() == 0 {
        assert(start.send.sent + start.send.pending =~= start.written.skip(0));
        assert(start.recv.ready =~= start.written.subrange(0, 0));
        assert(start.delivered =~= start.written.take(0));
    } else {
        law_delivery_in_order(capacity, window, origin, steps.drop_last());
        start.after_all(steps.drop_last()).lemma_step(steps.last());
    }
}

} // verus!
