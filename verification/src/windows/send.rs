//! The sending side of a reliable stream.

use vstd::prelude::*;

use crate::ring_buffer::{min_nat, overlay, ring_buffer, RingBuffer};
use crate::windows::stream::{
    advance, before, lemma_advance, lemma_advance_twice, lemma_steps, steps, stream_gt, stream_lt,
    StreamPos, MAX_DISTANCE,
};

verus! {

/// The outcome of acknowledging a stream range.
#[derive(Debug, Clone, Copy, PartialEq, Eq, Structural)]
pub enum AckResult {
    /// This range was not found or acked more than was sent.
    NotFound,
    /// This range was fully acked.
    Ack,
    /// This range was a partial ack of a previously sent range, and the range from the end of the
    /// provided range to this stream position should be considered nacked.
    PartialAck(StreamPos),
}

/// The state of a [`SendWindow`].
#[verifier::ext_equal]
pub struct SendView {
    /// The number of bytes the window can hold.
    pub capacity: nat,
    /// The position of the next byte to be sent.
    pub send_pos: StreamPos,
    /// The bytes before `send_pos` that are kept until they are acknowledged.
    pub sent: Seq<u8>,
    /// The bytes that were written and not sent yet.
    pub pending: Seq<u8>,
    /// The sent ranges that were not acknowledged yet, in stream order.
    pub unacked: Seq<(StreamPos, StreamPos)>,
}

/// Some range of `ranges` starts at `start`.
pub open spec fn has_range(ranges: Seq<(StreamPos, StreamPos)>, start: StreamPos) -> bool {
    exists|i: int| 0 <= i < ranges.len() && #[trigger] ranges[i].0 == start
}

/// The index of the range that starts at `start`.
pub open spec fn range_index(ranges: Seq<(StreamPos, StreamPos)>, start: StreamPos) -> int {
    choose|i: int| 0 <= i < ranges.len() && #[trigger] ranges[i].0 == start
}

impl SendView {
    /// The position of the first byte that is kept.
    pub open spec fn unacked_start(self) -> StreamPos {
        advance(self.send_pos, -(self.sent.len() as int))
    }

    /// How far into the kept bytes `pos` lies.
    pub open spec fn offset(self, pos: StreamPos) -> int {
        steps(self.unacked_start(), pos)
    }

    /// The unacked ranges are non-empty, do not overlap, are in stream order and lie within the
    /// sent bytes. The first of them starts at the first byte that is kept, so nothing is kept
    /// longer than it has to be.
    pub open spec fn valid(self) -> bool {
        &&& 0 < self.capacity <= MAX_DISTANCE
        &&& self.sent.len() + self.pending.len() <= self.capacity
        &&& forall|i: int|
            #![trigger self.unacked[i]]
            0 <= i < self.unacked.len() ==> self.offset(self.unacked[i].0) < self.offset(
                self.unacked[i].1,
            ) <= self.sent.len()
        &&& forall|i: int, j: int|
            #![trigger self.unacked[i], self.unacked[j]]
            0 <= i < j < self.unacked.len() ==> self.offset(self.unacked[i].1) <= self.offset(
                self.unacked[j].0,
            )
        &&& if self.unacked.len() == 0 {
            self.sent.len() == 0
        } else {
            self.unacked[0].0 == self.unacked_start()
        }
    }

    /// The number of bytes that can still be written.
    pub open spec fn room(self) -> nat {
        (self.capacity - self.sent.len() - self.pending.len()) as nat
    }

    /// The state after as much of `data` as there is room for is written.
    pub open spec fn written(self, data: Seq<u8>) -> SendView {
        SendView {
            pending: self.pending + data.take(min_nat(self.room(), data.len()) as int),
            ..self
        }
    }

    /// The state after the first `n` pending bytes are sent.
    pub open spec fn sending(self, n: nat) -> SendView {
        let end = advance(self.send_pos, n as int);
        SendView {
            send_pos: end,
            sent: self.sent + self.pending.take(n as int),
            pending: self.pending.skip(n as int),
            unacked: self.unacked.push((self.send_pos, end)),
            ..self
        }
    }

    /// The range from `start` to `end` is a non-empty prefix of an unacked range.
    pub open spec fn acks(self, start: StreamPos, end: StreamPos) -> bool {
        &&& has_range(self.unacked, start)
        &&& 0 < steps(start, end) <= steps(
            start,
            self.unacked[range_index(self.unacked, start)].1,
        )
    }

    /// The answer to the acknowledgement of the range from `start` to `end`.
    pub open spec fn ack_result(self, start: StreamPos, end: StreamPos) -> AckResult {
        let range_end = self.unacked[range_index(self.unacked, start)].1;
        if !self.acks(start, end) {
            AckResult::NotFound
        } else if end == range_end {
            AckResult::Ack
        } else {
            AckResult::PartialAck(range_end)
        }
    }

    /// The unacked ranges after the range from `start` to `end` is acknowledged.
    pub open spec fn unacked_after(self, start: StreamPos, end: StreamPos) -> Seq<
        (StreamPos, StreamPos),
    > {
        let i = range_index(self.unacked, start);
        let range_end = self.unacked[i].1;
        if !self.acks(start, end) {
            self.unacked
        } else if end == range_end {
            self.unacked.remove(i)
        } else {
            self.unacked.update(i, (end, range_end))
        }
    }

    /// The state after the range from `start` to `end` is acknowledged. The bytes before the first
    /// range that is still unacked are no longer kept.
    pub open spec fn acked(self, start: StreamPos, end: StreamPos) -> SendView {
        let unacked = self.unacked_after(start, end);
        let freed = if unacked.len() == 0 {
            self.sent.len() as int
        } else {
            self.offset(unacked[0].0)
        };
        SendView { sent: self.sent.skip(freed), unacked, ..self }
    }
}

/// Coalesces and buffers outgoing stream data up to a configured window capacity and keeps it
/// available to resend until it is acknowledged by the remote.
pub struct SendWindow {
    buffer: RingBuffer,
    // The stream position of the first byte of the outgoing buffer after the "sent" bytes.
    send_pos: StreamPos,
    // The number of bytes at the beginning of the outgoing buffer that have already been sent, but
    // are being kept in case they need to be retransmitted.
    sent: u32,
    // The set of sent but unacked stream ranges, sorted in stream order.
    unacked_ranges: Vec<(StreamPos, StreamPos)>,
}

impl SendWindow {
    pub closed spec fn view(&self) -> SendView {
        SendView {
            capacity: self.buffer@.capacity(),
            send_pos: self.send_pos,
            sent: self.buffer@.ready.take(self.sent as int),
            pending: self.buffer@.ready.skip(self.sent as int),
            unacked: self.unacked_ranges@,
        }
    }

    pub closed spec fn wf(&self) -> bool {
        &&& self.buffer.wf()
        &&& self.sent <= self.buffer@.ready.len()
        &&& self@.valid()
    }

    /// The state of a well-formed window is valid.
    pub proof fn lemma_valid(&self)
        requires
            self.wf(),
        ensures
            self@.valid(),
    {
    }

    /// Creates an empty window of `capacity` bytes for a stream that starts at `stream_start`.
    pub fn new(capacity: u32, stream_start: StreamPos) -> (window: SendWindow)
        requires
            0 < capacity <= MAX_DISTANCE,
        ensures
            window.wf(),
            window@ == (SendView {
                capacity: capacity as nat,
                send_pos: stream_start,
                sent: Seq::empty(),
                pending: Seq::empty(),
                unacked: Seq::empty(),
            }),
    {
        let window = SendWindow {
            buffer: ring_buffer(capacity as usize),
            send_pos: stream_start,
            sent: 0,
            unacked_ranges: Vec::new(),
        };
        assert(window@.sent =~= Seq::empty());
        assert(window@.pending =~= Seq::empty());
        window
    }

    /// Borrows the writing end of the window.
    pub fn writer(&mut self) -> (writer: SendWindowWriter<'_>)
        ensures
            *writer.window == *old(self),
            *final(self) == *final(writer.window),
    {
        SendWindowWriter { window: self }
    }

    /// Writes the given data to the end of the send buffer, up to the available amount to be
    /// written.
    pub fn write(&mut self, data: &[u8]) -> (len: u32)
        requires
            old(self).wf(),
        ensures
            final(self).wf(),
            len == min_nat(old(self)@.room(), data@.len()),
            final(self)@ == old(self)@.written(data@),
            final(self)@.pending == old(self)@.pending + data@.take(len as int),
            len < data@.len() ==> final(self)@.sent.len() + final(self)@.pending.len()
                == old(self)@.capacity,
    {
        let len: usize = self.buffer.writer().write(data);
        assert(self@ =~= old(self)@.written(data@));
        len as u32
    }

    /// The amount of data available to be written.
    pub fn write_available(&self) -> (n: u32)
        requires
            self.wf(),
        ensures
            n == self@.room(),
    {
        self.buffer.write_available() as u32
    }

    /// The stream position of the next byte of data that would be sent with a call to
    /// `SendWindow::send`.
    pub fn send_pos(&self) -> (pos: StreamPos)
        ensures
            pos == self@.send_pos,
    {
        self.send_pos
    }

    /// The amount of written data that has not been sent yet.
    pub fn send_available(&self) -> (n: u32)
        requires
            self.wf(),
        ensures
            n == self@.pending.len(),
    {
        self.buffer.read_available() as u32 - self.sent
    }

    /// Sends any pending written data up to the size of the provided buffer, and adds this sent
    /// range as an unacked range.
    ///
    /// Returns the stream range of the sent data. Only the data from the start of the buffer to the
    /// length of the returned stream range is actually written. If no data is available to be sent
    /// or the provided buffer is empty, returns `None`.
    #[verifier::rlimit(40)]
    pub fn send(&mut self, data: &mut [u8]) -> (range: Option<(StreamPos, StreamPos)>)
        requires
            old(self).wf(),
        ensures
            final(self).wf(),
            range is Some <==> old(self)@.pending.len() > 0 && old(data)@.len() > 0,
            range matches Some((start, end)) ==> {
                let n = steps(start, end);
                &&& start == old(self)@.send_pos
                &&& end == final(self)@.send_pos
                &&& n == old(data)@.len() || final(self)@.pending.len() == 0
                &&& final(data)@.take(n) + final(self)@.pending == old(self)@.pending
                &&& final(data)@.skip(n) == old(data)@.skip(n)
            },
            ({
                let n = min_nat(old(self)@.pending.len(), old(data)@.len());
                if n == 0 {
                    &&& range is None
                    &&& final(self)@ == old(self)@
                    &&& final(data)@ == old(data)@
                } else {
                    &&& range == Some(
                        (old(self)@.send_pos, advance(old(self)@.send_pos, n as int)),
                    )
                    &&& final(self)@ == old(self)@.sending(n)
                    &&& final(data)@ == overlay(
                        old(data)@,
                        0,
                        old(self)@.pending.take(n as int),
                    )
                }
            }),
    {
        let pending: usize = self.buffer.read_available() - self.sent as usize;
        let amount: usize = if pending < data.len() {
            pending
        } else {
            data.len()
        };
        if amount == 0 {
            return None;
        }
        let ghost n = amount as nat;
        self.buffer.peek(self.sent as usize, data);
        assert(self.buffer@.ready.skip(self.sent as int).take(amount as int)
            =~= old(self)@.pending.take(amount as int));
        let start: StreamPos = self.send_pos;
        let end: StreamPos = start.wrapping_add(amount as u32);
        self.sent = self.sent + amount as u32;
        self.send_pos = end;
        self.unacked_ranges.push((start, end));
        proof {
            let prior = old(self)@;
            lemma_advance(start, n as int);
            assert(self@ =~= prior.sending(n));
            assert(self@.unacked_start() == prior.unacked_start());
            assert(self@.offset(start) == prior.sent.len());
            assert(self@.offset(end) == prior.sent.len() + n);
            assert(self@.valid());
        }
        Some((start, end))
    }

    /// Returns the stream position after the last contiguously acked sent data. The stream data
    /// from `unacked_start` to `send_pos` is sent but not yet fully acked, and is retained in the
    /// send buffer.
    pub fn unacked_start(&self) -> (pos: StreamPos)
        requires
            self.wf(),
        ensures
            pos == self@.unacked_start(),
    {
        self.send_pos.wrapping_sub(self.sent)
    }

    /// Fetches a portion of the retained data, starting at stream position `start`. The portion
    /// must lie within the data that was written and is still retained.
    pub fn get_unacked(&self, start: StreamPos, data: &mut [u8])
        requires
            self.wf(),
            self@.offset(start) + old(data)@.len() <= self@.sent.len() + self@.pending.len(),
        ensures
            final(data)@ == (self@.sent + self@.pending).subrange(
                self@.offset(start),
                self@.offset(start) + old(data)@.len(),
            ),
    {
        let unacked_start: StreamPos = self.unacked_start();
        let buf_start: usize = start.wrapping_sub(unacked_start) as usize;
        self.buffer.peek(buf_start, data);
        assert(data@ =~= (self@.sent + self@.pending).subrange(
            self@.offset(start),
            self@.offset(start) + old(data)@.len(),
        ));
    }

    /// Finds the unacked range that starts at `start`.
    fn find_range(&self, start: StreamPos) -> (index: Option<usize>)
        requires
            self.wf(),
        ensures
            match index {
                Some(i) => i < self@.unacked.len() && self@.unacked[i as int].0 == start,
                None => !has_range(self@.unacked, start),
            },
    {
        let base: StreamPos = self.unacked_start();
        let target: u32 = start.wrapping_sub(base);
        let mut low: usize = 0;
        let mut high: usize = self.unacked_ranges.len();
        while low < high
            invariant
                self.wf(),
                base == self@.unacked_start(),
                target == self@.offset(start),
                low <= high <= self@.unacked.len(),
                forall|i: int|
                    #![trigger self@.unacked[i]]
                    0 <= i < low ==> self@.offset(self@.unacked[i].0) < target,
                forall|i: int|
                    #![trigger self@.unacked[i]]
                    high <= i < self@.unacked.len() ==> self@.offset(self@.unacked[i].0) > target,
            decreases high - low,
        {
            let mid: usize = low + (high - low) / 2;
            let range_start: StreamPos = self.unacked_ranges[mid].0;
            let offset: u32 = range_start.wrapping_sub(base);
            assert(offset == self@.offset(self@.unacked[mid as int].0));
            if offset == target {
                proof {
                    lemma_steps(base, start);
                    lemma_steps(base, range_start);
                }
                return Some(mid);
            }
            if offset < target {
                low = mid + 1;
            } else {
                high = mid;
            }
        }
        assert(!has_range(self@.unacked, start));
        None
    }

    /// Acknowledges the receipt of the given stream range from the remote, and thus potentially
    /// frees up send buffer space.
    ///
    /// Acknowledged ranges are allowed to be equal to or shorter than the sent ranges, but they
    /// *must* start with the same stream position. Acked ranges will be ignored if they are empty
    /// or do not start with the same position as a previously sent, unacked range.
    pub fn ack_range(&mut self, start: StreamPos, end: StreamPos) -> (result: AckResult)
        requires
            old(self).wf(),
        ensures
            final(self).wf(),
            result == old(self)@.ack_result(start, end),
            final(self)@ == old(self)@.acked(start, end),
    {
        let ghost prior = self@;
        if !stream_lt(start, end) {
            proof {
                if prior.acks(start, end) {
                    prior.lemma_acks_near(start, end);
                }
                prior.lemma_not_acked(start, end);
            }
            return AckResult::NotFound;
        }
        let i: usize = match self.find_range(start) {
            Some(i) => i,
            None => {
                proof {
                    prior.lemma_not_acked(start, end);
                }
                return AckResult::NotFound;
            },
        };
        proof {
            prior.lemma_range_index(i as int);
        }
        let range_end: StreamPos = self.unacked_ranges[i].1;
        if stream_gt(end, range_end) {
            proof {
                if prior.acks(start, end) {
                    prior.lemma_acks_near(start, end);
                }
                prior.lemma_not_acked(start, end);
            }
            return AckResult::NotFound;
        }
        assert(prior.acks(start, end));
        let unacked_start: StreamPos = self.unacked_start();
        let result: AckResult = if end == range_end {
            self.unacked_ranges.remove(i);
            AckResult::Ack
        } else {
            self.unacked_ranges[i] = (end, range_end);
            AckResult::PartialAck(range_end)
        };
        assert(self.unacked_ranges@ =~= prior.unacked_after(start, end));
        let freed: u32 = if self.unacked_ranges.len() == 0 {
            self.sent
        } else {
            self.unacked_ranges[0].0.wrapping_sub(unacked_start)
        };
        proof {
            prior.lemma_acked_valid(start, end);
        }
        self.buffer.reader().advance(freed as usize);
        self.sent = self.sent - freed;
        assert(self@ =~= prior.acked(start, end));
        result
    }
}

impl SendView {
    /// The starts of the unacked ranges are distinct.
    pub proof fn lemma_range_index(self, i: int)
        requires
            self.valid(),
            0 <= i < self.unacked.len(),
        ensures
            has_range(self.unacked, self.unacked[i].0),
            range_index(self.unacked, self.unacked[i].0) == i,
    {
        let start = self.unacked[i].0;
        let j = range_index(self.unacked, start);
        assert(has_range(self.unacked, start));
        assert(0 <= j < self.unacked.len() && self.unacked[j].0 == start);
        assert(self.offset(self.unacked[i].0) < self.offset(self.unacked[i].1));
        assert(self.offset(self.unacked[j].0) < self.offset(self.unacked[j].1));
        if i < j {
            assert(self.offset(self.unacked[i].1) <= self.offset(self.unacked[j].0));
        } else if j < i {
            assert(self.offset(self.unacked[j].1) <= self.offset(self.unacked[i].0));
        }
    }

    /// An acknowledged range lies between the ends of its unacked range.
    pub proof fn lemma_acks_near(self, start: StreamPos, end: StreamPos)
        requires
            self.valid(),
            self.acks(start, end),
        ensures
            ({
                let range_end = self.unacked[range_index(self.unacked, start)].1;
                &&& self.offset(start) < self.offset(end) <= self.offset(range_end)
                    <= self.sent.len()
                &&& before(start, end)
                &&& !before(range_end, end)
            }),
    {
        let i = range_index(self.unacked, start);
        assert(self.unacked[i].0 == start);
        assert(self.offset(self.unacked[i].0) < self.offset(self.unacked[i].1));
    }

    /// What is not found is not acknowledged.
    proof fn lemma_not_acked(self, start: StreamPos, end: StreamPos)
        requires
            self.valid(),
            !self.acks(start, end),
        ensures
            self.acked(start, end) == self,
    {
        assert(self.offset(self.unacked_start()) == 0);
        assert(self.acked(start, end) =~= self);
    }

    /// Acknowledging keeps the state valid, and the ranges that are still unacked in their places.
    pub proof fn lemma_acked_valid(self, start: StreamPos, end: StreamPos)
        requires
            self.valid(),
            self.acks(start, end),
        ensures
            self.acked(start, end).valid(),
            self.unacked_after(start, end).len() > 0 ==> self.offset(
                self.unacked_after(start, end)[0].0,
            ) <= self.sent.len(),
            ({
                let next = self.acked(start, end);
                let freed = self.sent.len() - next.sent.len();
                forall|k: int|
                    #![trigger next.unacked[k]]
                    0 <= k < next.unacked.len() ==> {
                        &&& next.offset(next.unacked[k].0) == self.offset(next.unacked[k].0) - freed
                        &&& next.offset(next.unacked[k].1) == self.offset(next.unacked[k].1) - freed
                    }
            }),
    {
        let next = self.acked(start, end);
        let i = range_index(self.unacked, start);
        let ranges = self.unacked_after(start, end);
        assert(0 <= i < self.unacked.len() && self.unacked[i].0 == start);
        assert(self.offset(self.unacked[i].0) < self.offset(self.unacked[i].1));
        let freed = self.sent.len() - next.sent.len();
        if ranges.len() == 0 {
        } else {
            assert(freed == self.offset(ranges[0].0));
            assert(next.unacked_start() == ranges[0].0);
            assert forall|k: int|
                #![trigger ranges[k]]
                0 <= k < ranges.len() implies next.offset(ranges[k].0) == self.offset(ranges[k].0)
                - freed && next.offset(ranges[k].1) == self.offset(ranges[k].1) - freed
                && next.offset(ranges[k].0) < next.offset(ranges[k].1) <= next.sent.len() by {
            }
        }
    }
}

impl SendView {
    /// The number of bytes of `stream` that are no longer kept.
    pub open spec fn released(self, stream: Seq<u8>) -> int {
        stream.len() - self.sent.len() - self.pending.len()
    }

    /// The window is the sending side of a stream that starts at `origin` and to which `stream` has
    /// been written: it keeps the end of the stream, at the right positions.
    pub open spec fn sends(self, stream: Seq<u8>, origin: StreamPos) -> bool {
        &&& 0 <= self.released(stream)
        &&& self.sent + self.pending == stream.skip(self.released(stream))
        &&& self.send_pos == advance(origin, self.released(stream) + self.sent.len())
    }

    /// What is kept starts at the position of the first stream byte that is not released.
    pub proof fn lemma_unacked_start(self, stream: Seq<u8>, origin: StreamPos)
        requires
            self.sends(stream, origin),
        ensures
            self.unacked_start() == advance(origin, self.released(stream)),
    {
        lemma_advance_twice(
            origin,
            self.released(stream) + self.sent.len(),
            -(self.sent.len() as int),
        );
    }
}

/// Writing extends the stream by the bytes that were accepted.
pub proof fn law_write_extends_stream(
    window: SendView,
    stream: Seq<u8>,
    origin: StreamPos,
    data: Seq<u8>,
)
    requires
        window.valid(),
        window.sends(stream, origin),
    ensures
        window.written(data).valid(),
        window.written(data).sends(
            stream + data.take(min_nat(window.room(), data.len()) as int),
            origin,
        ),
{
    let taken = data.take(min_nat(window.room(), data.len()) as int);
    let next = window.written(data);
    let kept = window.sent + window.pending;
    assert(next.sent + next.pending =~= kept + taken);
    assert(kept + taken =~= (stream + taken).skip(window.released(stream)));
}

/// A sent range holds the bytes of the stream at its position.
pub proof fn law_send_carries_stream(
    window: SendView,
    stream: Seq<u8>,
    origin: StreamPos,
    n: nat,
)
    requires
        window.valid(),
        window.sends(stream, origin),
        0 < n <= window.pending.len(),
    ensures
        ({
            let at = window.released(stream) + window.sent.len();
            &&& window.sending(n).valid()
            &&& window.sending(n).sends(stream, origin)
            &&& window.send_pos == advance(origin, at)
            &&& window.pending.take(n as int) == stream.subrange(at, at + n)
        }),
{
    let at = window.released(stream) + window.sent.len();
    let next = window.sending(n);
    let kept = window.sent + window.pending;
    assert forall|i: int| 0 <= i < window.pending.len() implies window.pending[i] == stream[at
        + i] by {
        assert(window.pending[i] == kept[window.sent.len() + i]);
    }
    assert(window.pending.take(n as int) =~= stream.subrange(at, at + n));
    assert(next.sent + next.pending =~= kept);
    lemma_advance_twice(origin, at, n as int);
    lemma_advance(window.send_pos, n as int);
    lemma_advance_twice(window.send_pos, n as int, -((window.sent.len() + n) as int));
    assert(next.unacked_start() == window.unacked_start());
    assert(next.offset(window.send_pos) == window.sent.len());
    assert(next.offset(next.send_pos) == window.sent.len() + n);
}

/// What is fetched for a resend is what the stream holds at that position.
pub proof fn law_resend_carries_stream(
    window: SendView,
    stream: Seq<u8>,
    origin: StreamPos,
    pos: StreamPos,
    n: nat,
)
    requires
        window.valid(),
        window.sends(stream, origin),
        window.offset(pos) + n <= window.sent.len() + window.pending.len(),
    ensures
        ({
            let at = window.released(stream) + window.offset(pos);
            &&& pos == advance(origin, at)
            &&& (window.sent + window.pending).subrange(
                window.offset(pos),
                window.offset(pos) + n,
            ) == stream.subrange(at, at + n)
        }),
{
    let at = window.released(stream) + window.offset(pos);
    window.lemma_unacked_start(stream, origin);
    lemma_steps(window.unacked_start(), pos);
    lemma_advance_twice(origin, window.released(stream), window.offset(pos));
    assert((window.sent + window.pending).subrange(window.offset(pos), window.offset(pos) + n)
        =~= stream.subrange(at, at + n));
}

/// Acknowledging changes neither the stream nor what is still to be sent, and releases only bytes
/// before the first range that is still unacked.
pub proof fn law_ack_keeps_stream(
    window: SendView,
    stream: Seq<u8>,
    origin: StreamPos,
    start: StreamPos,
    end: StreamPos,
)
    requires
        window.valid(),
        window.sends(stream, origin),
    ensures
        window.acked(start, end).valid(),
        window.acked(start, end).sends(stream, origin),
        window.acked(start, end).pending == window.pending,
        window.acked(start, end).send_pos == window.send_pos,
        window.released(stream) <= window.acked(start, end).released(stream),
{
    let next = window.acked(start, end);
    if window.acks(start, end) {
        window.lemma_acked_valid(start, end);
    } else {
        window.lemma_not_acked(start, end);
    }
    let freed = window.sent.len() - next.sent.len();
    assert(next.sent + next.pending =~= (window.sent + window.pending).skip(freed));
    assert(next.sent + next.pending =~= stream.skip(next.released(stream)));
}

/// A range that was acknowledged in full is not found again, and an acknowledgement that is not
/// found changes nothing.
pub proof fn law_ack_once(window: SendView, start: StreamPos, end: StreamPos)
    requires
        window.valid(),
    ensures
        window.ack_result(start, end) == AckResult::NotFound ==> window.acked(start, end) == window,
        window.ack_result(start, end) == AckResult::Ack ==> window.acked(start, end).ack_result(
            start,
            end,
        ) == AckResult::NotFound,
{
    if !window.acks(start, end) {
        window.lemma_not_acked(start, end);
    } else if window.ack_result(start, end) == AckResult::Ack {
        let next = window.acked(start, end);
        let i = range_index(window.unacked, start);
        if has_range(next.unacked, start) {
            let j = range_index(next.unacked, start);
            let k = if j < i {
                j
            } else {
                j + 1
            };
            assert(window.unacked[k].0 == start);
            window.lemma_range_index(k);
        }
    }
}

/// Writing takes the data from its start, all of it or as much as fills the window, and touches nothing
/// else.
pub proof fn law_write_fills_window(window: SendView, data: Seq<u8>)
    requires
        window.valid(),
    ensures
        ({
            let next = window.written(data);
            let n = next.pending.len() - window.pending.len();
            &&& 0 <= n <= data.len()
            &&& n < data.len() ==> next.sent.len() + next.pending.len() == window.capacity
            &&& next.sent.len() + next.pending.len() <= window.capacity
            &&& next.pending == window.pending + data.take(n)
            &&& next.sent == window.sent
            &&& next.capacity == window.capacity
            &&& next.send_pos == window.send_pos
            &&& next.unacked == window.unacked
            &&& window.room() == window.capacity - window.sent.len() - window.pending.len()
        }),
{
}

/// An acknowledgement of the first `n` bytes of an unacked range takes these from the range: the range is
/// gone if they are all of it, and starts after them if they are not. It is not found if it is empty, or
/// longer than the range. What is kept starts where the first range that is left starts.
pub proof fn law_ack_takes_bytes(window: SendView, i: int, n: int)
    requires
        window.valid(),
        0 <= i < window.unacked.len(),
        0 <= n < 0x1_0000_0000,
    ensures
        ({
            let (start, stop) = window.unacked[i];
            let len = steps(start, stop);
            let end = advance(start, n);
            let next = window.acked(start, end);
            let result = window.ack_result(start, end);
            &&& window.acks(start, end) <==> 0 < n <= len
            &&& n == 0 || n > len ==> result == AckResult::NotFound && next == window
            &&& n == len ==> result == AckResult::Ack && next.unacked == window.unacked.remove(i)
            &&& 0 < n < len ==> result == AckResult::PartialAck(stop) && next.unacked
                == window.unacked.update(i, (end, stop))
            &&& next.capacity == window.capacity
            &&& next.pending == window.pending
            &&& next.send_pos == window.send_pos
            &&& i > 0 ==> next.sent == window.sent
            &&& i == 0 && 0 < n < len ==> next.sent == window.sent.skip(n)
            &&& i == 0 && n == len && window.unacked.len() == 1 ==> next.sent.len() == 0
            &&& i == 0 && n == len && window.unacked.len() > 1 ==> next.sent == window.sent.skip(
                steps(start, window.unacked[1].0),
            )
        }),
{
    let (start, stop) = window.unacked[i];
    let end = advance(start, n);
    let next = window.acked(start, end);
    lemma_advance(start, n);
    window.lemma_range_index(i);
    lemma_steps(start, stop);
    assert(window.offset(window.unacked[i].0) < window.offset(window.unacked[i].1));
    if window.acks(start, end) {
        window.lemma_acks_near(start, end);
        assert(n == steps(start, stop) <==> end == stop);
        assert(window.offset(window.unacked[0].0) == 0);
        if window.unacked.len() > 1 {
            assert(window.offset(window.unacked[0].1) <= window.offset(window.unacked[1].0));
        }
        if i > 0 {
            assert(next.sent =~= window.sent);
        }
    } else {
        window.lemma_not_acked(start, end);
    }
}

/// An acknowledgement that starts where no unacked range starts is not found.
pub proof fn law_ack_needs_range(window: SendView, start: StreamPos, end: StreamPos)
    requires
        window.valid(),
        forall|i: int| 0 <= i < window.unacked.len() ==> (#[trigger] window.unacked[i]).0 != start,
    ensures
        !window.acks(start, end),
        window.ack_result(start, end) == AckResult::NotFound,
        window.acked(start, end) == window,
{
    window.lemma_not_acked(start, end);
}

/// Once every sent range has been acknowledged, all of the capacity that does not hold pending data
/// is free again.
pub proof fn law_all_acked_frees_all(window: SendView)
    requires
        window.valid(),
        window.unacked.len() == 0,
    ensures
        window.room() == window.capacity - window.pending.len(),
        window.unacked_start() == window.send_pos,
{
}

/// The writing end of a [`SendWindow`].
pub struct SendWindowWriter<'a> {
    pub window: &'a mut SendWindow,
}

impl<'a> SendWindowWriter<'a> {
    /// The borrowed window is well-formed.
    pub open spec fn wf(&self) -> bool {
        self.window.wf()
    }

    /// The state of the borrowed window.
    pub open spec fn view(&self) -> SendView {
        self.window@
    }

    /// Writes the given data to the end of the send buffer, up to the available amount to be
    /// written.
    pub fn write(&mut self, data: &[u8]) -> (len: u32)
        requires
            old(self).wf(),
        ensures
            final(self).wf(),
            len == min_nat(old(self)@.room(), data@.len()),
            final(self)@ == old(self)@.written(data@),
            final(self)@.pending == old(self)@.pending + data@.take(len as int),
            len < data@.len() ==> final(self)@.sent.len() + final(self)@.pending.len()
                == old(self)@.capacity,
            *final(final(self).window) == *final(old(self).window),
    {
        self.window.write(data)
    }

    /// The amount of data available to be written.
    pub fn write_available(&self) -> (n: u32)
        requires
            self.wf(),
        ensures
            n == self@.room(),
    {
        self.window.write_available()
    }
}

} // verus!
