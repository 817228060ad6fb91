//! The receiving side of a reliable stream.

use vstd::prelude::*;

use crate::ring_buffer::{min_nat, overlay, ring_buffer, RingBuffer};
use crate::windows::stream::{
    advance, before, half, lemma_advance, lemma_advance_twice, lemma_order_from_base,
    lemma_signed_steps, signed_steps, steps, stream_ge, stream_gt,
    stream_lt, StreamPos, MAX_DISTANCE,
};

verus! {

/// The length of the longest prefix of `cells` without a gap.
pub open spec fn run(cells: Seq<Option<u8>>) -> nat
    decreases cells.len(),
{
    if cells.len() == 0 || cells[0] is None {
        0
    } else {
        1 + run(cells.skip(1))
    }
}

/// The first `n` bytes of `cells`.
pub open spec fn bytes_of(cells: Seq<Option<u8>>, n: nat) -> Seq<u8> {
    Seq::new(n, |i: int| cells[i]->0)
}

/// A prefix without a gap that is followed by a gap, or by nothing, is the longest one.
pub proof fn lemma_run(cells: Seq<Option<u8>>, n: nat)
    requires
        n <= cells.len(),
        forall|i: int| 0 <= i < n ==> cells[i] is Some,
        n < cells.len() ==> cells[n as int] is None,
    ensures
        run(cells) == n,
    decreases n,
{
    if n > 0 {
        let rest = cells.skip(1);
        assert forall|i: int| 0 <= i < n - 1 implies rest[i] is Some by {
            assert(rest[i] == cells[i + 1]);
        }
        lemma_run(rest, (n - 1) as nat);
    }
}

/// The longest prefix without a gap is one, and a gap follows it.
pub proof fn lemma_run_is_prefix(cells: Seq<Option<u8>>)
    ensures
        run(cells) <= cells.len(),
        forall|i: int| 0 <= i < run(cells) ==> cells[i] is Some,
        run(cells) < cells.len() ==> cells[run(cells) as int] is None,
    decreases cells.len(),
{
    if cells.len() != 0 && cells[0] is Some {
        let rest = cells.skip(1);
        lemma_run_is_prefix(rest);
        assert forall|i: int| 0 <= i < run(cells) implies cells[i] is Some by {
            if i > 0 {
                assert(cells[i] == rest[i - 1]);
            }
        }
    }
}

/// The state of a [`RecvWindow`].
#[verifier::ext_equal]
pub struct RecvView {
    /// The position after the bytes that are ready to be read.
    pub recv_pos: StreamPos,
    /// The bytes that are ready to be read.
    pub ready: Seq<u8>,
    /// The rest of the window, from `recv_pos` on: the bytes that were received ahead of a gap, and
    /// `None` for each byte that is still missing.
    pub ahead: Seq<Option<u8>>,
}

impl RecvView {
    /// The number of bytes the window can hold.
    pub open spec fn capacity(self) -> nat {
        self.ready.len() + self.ahead.len()
    }

    /// The byte that follows the ready bytes is missing.
    pub open spec fn valid(self) -> bool {
        &&& 0 < self.capacity() <= MAX_DISTANCE
        &&& self.ahead.len() > 0 ==> self.ahead[0] is None
    }

    /// The position where no more data could be received.
    pub open spec fn window_end(self) -> StreamPos {
        advance(self.recv_pos, self.ahead.len() as int)
    }

    /// How far after `recv_pos` the position `pos` lies.
    pub open spec fn offset(self, pos: StreamPos) -> int {
        signed_steps(self.recv_pos, pos)
    }

    /// `pos` comes before the window end.
    pub open spec fn in_reach(self, pos: StreamPos) -> bool {
        self.ahead.len() - half() < self.offset(pos) < self.ahead.len()
    }

    /// How many of `len` bytes that start at `start` do not fall beyond the window end.
    pub open spec fn accepted_len(self, start: StreamPos, len: nat) -> nat {
        if self.in_reach(start) {
            min_nat(len, (self.ahead.len() - self.offset(start)) as nat)
        } else {
            0
        }
    }

    /// The end of the accepted part of `len` bytes that start at `start`, if that part is not
    /// empty.
    pub open spec fn accepted(self, start: StreamPos, len: nat) -> Option<StreamPos> {
        let n = self.accepted_len(start, len);
        if n == 0 {
            None
        } else {
            Some(advance(start, n as int))
        }
    }

    /// The cells ahead once the bytes of `block`, `first` cells after `recv_pos`, have filled the gaps
    /// that they fall into.
    pub open spec fn with_block(self, first: int, block: Seq<u8>) -> Seq<Option<u8>> {
        Seq::new(
            self.ahead.len(),
            |k: int|
                if first <= k < first + block.len() && self.ahead[k] is None {
                    Some(block[k - first])
                } else {
                    self.ahead[k]
                },
        )
    }

    /// The state in which the bytes of `cells` up to the first gap have become ready.
    pub open spec fn settled(self, cells: Seq<Option<u8>>) -> RecvView {
        let n = run(cells);
        RecvView {
            recv_pos: advance(self.recv_pos, n as int),
            ready: self.ready + bytes_of(cells, n),
            ahead: cells.skip(n as int),
        }
    }

    /// The state after `data` is received at position `start`.
    pub open spec fn received(self, start: StreamPos, data: Seq<u8>) -> RecvView {
        if self.in_reach(start) {
            self.settled(self.with_block(self.offset(start), data))
        } else {
            self
        }
    }

    /// The state after the first `n` ready bytes are read. The window moves forward by as many
    /// missing bytes.
    pub open spec fn reading(self, n: nat) -> RecvView {
        RecvView {
            ready: self.ready.skip(n as int),
            ahead: self.ahead + Seq::new(n, |i: int| None),
            ..self
        }
    }
}

/// Some interval of `regions` holds `k`.
spec fn covers(regions: Seq<(int, int)>, k: int) -> bool {
    exists|i: int| #![trigger regions[i]]
        0 <= i < regions.len() && regions[i].0 <= k < regions[i].1
}

/// `regions` are non-empty intervals between `low` and `high`, in order and with gaps between them.
spec fn separated(regions: Seq<(int, int)>, low: int, high: int) -> bool {
    &&& forall|i: int| #![trigger regions[i]]
        0 <= i < regions.len() ==> low < regions[i].0 < regions[i].1 <= high
    &&& forall|i: int, j: int| #![trigger regions[i], regions[j]]
        0 <= i < j < regions.len() ==> regions[i].1 < regions[j].0
}

/// `regions` with those from index `from` up to index `to` replaced by their union with the interval
/// from `low` to `high`.
spec fn merge(regions: Seq<(int, int)>, low: int, high: int, from: int, to: int) -> Seq<
    (int, int),
> {
    let start = if from < to && regions[from].0 < low {
        regions[from].0
    } else {
        low
    };
    let end = if from < to && regions[to - 1].1 > high {
        regions[to - 1].1
    } else {
        high
    };
    regions.take(from).push((start, end)) + regions.skip(to)
}

/// Replacing the intervals that the interval from `low` to `high` overlaps or touches, which are
/// those from index `from` up to index `to`, with the union of all of them, adds just the interval.
proof fn lemma_merge(
    regions: Seq<(int, int)>,
    limit: int,
    low: int,
    high: int,
    from: int,
    to: int,
)
    requires
        separated(regions, 0, limit),
        0 < low < high <= limit,
        0 <= from <= to <= regions.len(),
        forall|i: int| #![trigger regions[i]] 0 <= i < from ==> regions[i].1 < low,
        forall|i: int| #![trigger regions[i]] from <= i < regions.len() ==> regions[i].1 >= low,
        forall|i: int| #![trigger regions[i]] 0 <= i < to ==> regions[i].0 <= high,
        forall|i: int| #![trigger regions[i]] to <= i < regions.len() ==> regions[i].0 > high,
    ensures
        separated(merge(regions, low, high, from, to), 0, limit),
        forall|k: int| #[trigger]
            covers(merge(regions, low, high, from, to), k) <==> covers(regions, k) || low <= k
                < high,
{
    let spliced = merge(regions, low, high, from, to);
    let merged = spliced[from];
    let shift = to - from - 1;
    assert forall|i: int| #![trigger spliced[i]] 0 <= i < spliced.len() implies spliced[i] == (if i
        < from {
        regions[i]
    } else if i == from {
        merged
    } else {
        regions[i + shift]
    }) by {
    }
    if from < to {
        let _ = regions[from];
        let _ = regions[to - 1];
    }
    assert(separated(spliced, 0, limit));
    assert forall|k: int| covers(regions, k) || low <= k < high implies #[trigger] covers(
        spliced,
        k,
    ) by {
        if low <= k < high {
            assert(spliced[from].0 <= k < spliced[from].1);
        } else {
            let i = choose|i: int| #![trigger regions[i]]
                0 <= i < regions.len() && regions[i].0 <= k < regions[i].1;
            if i < from {
                assert(spliced[i] == regions[i]);
            } else if i >= to {
                assert(spliced[i - shift] == regions[i]);
            } else {
                assert(spliced[from].0 <= k < spliced[from].1);
            }
        }
    }
    assert forall|k: int| #[trigger] covers(spliced, k) implies covers(regions, k) || low <= k
        < high by {
        let i = choose|i: int| #![trigger spliced[i]]
            0 <= i < spliced.len() && spliced[i].0 <= k < spliced[i].1;
        if i < from {
            assert(regions[i].0 <= k < regions[i].1);
        } else if i > from {
            assert(regions[i + shift].0 <= k < regions[i + shift].1);
        } else if from < to {
            if k < low {
                assert(regions[from].0 <= k < regions[from].1);
            } else if k >= high {
                assert(regions[to - 1].0 <= k < regions[to - 1].1);
            }
        }
    }
}

/// Receives stream data up to a configured window capacity, in any order, and combines it into an
/// ordered stream.
pub struct RecvWindow {
    buffer: RingBuffer,
    // The stream position of the first byte of the incoming buffer after the "ready" bytes.
    recv_pos: StreamPos,
    // An ordered list of received regions of data in the buffer that do not connect with the
    // "ready" data. No region is empty, and no two regions overlap or touch.
    unready: Vec<(StreamPos, StreamPos)>,
}

impl RecvWindow {
    /// The unready regions, as offsets from `recv_pos`.
    spec fn regions(&self) -> Seq<(int, int)> {
        Seq::new(
            self.unready@.len(),
            |i: int|
                (
                    steps(self.recv_pos, self.unready@[i].0),
                    steps(self.recv_pos, self.unready@[i].1),
                ),
        )
    }

    pub closed spec fn view(&self) -> RecvView {
        RecvView {
            recv_pos: self.recv_pos,
            ready: self.buffer@.ready,
            ahead: Seq::new(
                self.buffer@.free.len(),
                |k: int|
                    if covers(self.regions(), k) {
                        Some(self.buffer@.free[k])
                    } else {
                        None
                    },
            ),
        }
    }

    pub closed spec fn wf(&self) -> bool {
        &&& self.buffer.wf()
        &&& self.buffer@.capacity() <= MAX_DISTANCE
        &&& separated(self.regions(), 0, self.buffer@.free.len() as int)
    }

    /// The state of a well-formed window is valid.
    pub proof fn lemma_valid(&self)
        requires
            self.wf(),
        ensures
            self@.valid(),
    {
        self.buffer.lemma_capacity();
    }

    /// Creates an empty window of `capacity` bytes for a stream that starts at `stream_start`.
    pub fn new(capacity: u32, stream_start: StreamPos) -> (window: RecvWindow)
        requires
            0 < capacity <= MAX_DISTANCE,
        ensures
            window.wf(),
            window@ == (RecvView {
                recv_pos: stream_start,
                ready: Seq::empty(),
                ahead: Seq::new(capacity as nat, |i: int| None),
            }),
    {
        let window = RecvWindow {
            buffer: ring_buffer(capacity as usize),
            recv_pos: stream_start,
            unready: Vec::new(),
        };
        assert(window@.ready =~= Seq::empty());
        assert(window@.ahead =~= Seq::new(capacity as nat, |i: int| None));
        window
    }

    /// Borrows the reading end of the window.
    pub fn reader(&mut self) -> (reader: RecvWindowReader<'_>)
        ensures
            *reader.window == *old(self),
            *final(self) == *final(reader.window),
    {
        RecvWindowReader { window: self }
    }

    /// The amount of contiguous data available to be read.
    pub fn read_available(&self) -> (n: u32)
        requires
            self.wf(),
        ensures
            n == self@.ready.len(),
    {
        self.buffer.read_available() as u32
    }

    /// The stream position where no more data could be received. This window will move forward as
    /// data is read.
    pub fn window_end(&self) -> (pos: StreamPos)
        requires
            self.wf(),
        ensures
            pos == self@.window_end(),
    {
        let window: u32 = self.buffer.write_available() as u32;
        proof {
            lemma_advance(self.recv_pos, window as int);
        }
        self.recv_pos.wrapping_add(window)
    }

    /// Reads any ready data off of the beginning of the read buffer and returns the number of bytes
    /// read.
    pub fn read(&mut self, data: &mut [u8]) -> (len: u32)
        requires
            old(self).wf(),
        ensures
            final(self).wf(),
            len == min_nat(old(self)@.ready.len(), old(data)@.len()),
            len == old(data)@.len() || final(self)@.ready.len() == 0,
            final(data)@.take(len as int) + final(self)@.ready == old(self)@.ready,
            final(data)@.skip(len as int) == old(data)@.skip(len as int),
            final(data)@ == overlay(old(data)@, 0, old(self)@.ready.take(len as int)),
            final(self)@ == old(self)@.reading(len as nat),
    {
        let len: usize = self.buffer.peek(0, data);
        assert(self.buffer@.ready.skip(0).take(len as int) =~= self@.ready.take(len as int));
        self.buffer.reader().advance(len);
        assert(self.regions() =~= old(self).regions());
        assert(self@ =~= old(self)@.reading(len as nat));
        len as u32
    }

    /// The index of the first unready region that starts after offset `bound`.
    fn first_after(&self, bound: u32) -> (index: usize)
        requires
            self.wf(),
        ensures
            index <= self.unready@.len(),
            forall|i: int| #![trigger self.regions()[i]]
                0 <= i < index ==> self.regions()[i].0 <= bound,
            forall|i: int| #![trigger self.regions()[i]]
                index <= i < self.unready@.len() ==> self.regions()[i].0 > bound,
    {
        let mut low: usize = 0;
        let mut high: usize = self.unready.len();
        while low < high
            invariant
                self.wf(),
                low <= high <= self.unready@.len(),
                forall|i: int| #![trigger self.regions()[i]]
                    0 <= i < low ==> self.regions()[i].0 <= bound,
                forall|i: int| #![trigger self.regions()[i]]
                    high <= i < self.unready@.len() ==> self.regions()[i].0 > bound,
            decreases high - low,
        {
            let mid: usize = low + (high - low) / 2;
            let start: u32 = self.unready[mid].0.wrapping_sub(self.recv_pos);
            assert(start == self.regions()[mid as int].0);
            if start <= bound {
                low = mid + 1;
            } else {
                high = mid;
            }
        }
        low
    }

    /// The index of the first unready region that ends at offset `bound` or after it.
    fn first_reaching(&self, bound: u32) -> (index: usize)
        requires
            self.wf(),
        ensures
            index <= self.unready@.len(),
            forall|i: int| #![trigger self.regions()[i]]
                0 <= i < index ==> self.regions()[i].1 < bound,
            forall|i: int| #![trigger self.regions()[i]]
                index <= i < self.unready@.len() ==> self.regions()[i].1 >= bound,
    {
        let mut low: usize = 0;
        let mut high: usize = self.unready.len();
        while low < high
            invariant
                self.wf(),
                low <= high <= self.unready@.len(),
                forall|i: int| #![trigger self.regions()[i]]
                    0 <= i < low ==> self.regions()[i].1 < bound,
                forall|i: int| #![trigger self.regions()[i]]
                    high <= i < self.unready@.len() ==> self.regions()[i].1 >= bound,
            decreases high - low,
        {
            let mid: usize = low + (high - low) / 2;
            let end: u32 = self.unready[mid].1.wrapping_sub(self.recv_pos);
            assert(end == self.regions()[mid as int].1);
            if end < bound {
                low = mid + 1;
            } else {
                high = mid;
            }
        }
        low
    }

    /// Replaces the unready regions `from..to` with `insert`, or with nothing.
    fn splice(&mut self, from: usize, to: usize, insert: Option<(StreamPos, StreamPos)>)
        requires
            from <= to <= old(self).unready@.len(),
        ensures
            final(self).buffer == old(self).buffer,
            final(self).recv_pos == old(self).recv_pos,
            final(self).unready@ == old(self).unready@.take(from as int) + (match insert {
                Some(region) => seq![region],
                None => Seq::empty(),
            }) + old(self).unready@.skip(to as int),
    {
        let mut tail: Vec<(StreamPos, StreamPos)> = self.unready.split_off(to);
        self.unready.truncate(from);
        match insert {
            Some(region) => {
                self.unready.push(region);
            },
            None => {},
        }
        self.unready.append(&mut tail);
    }

    /// The cells of the window once everything before offset `end` counts as received.
    spec fn cells_up_to(&self, end: int) -> Seq<Option<u8>> {
        Seq::new(
            self.buffer@.free.len(),
            |k: int|
                if k < end || covers(self.regions(), k) {
                    Some(self.buffer@.free[k])
                } else {
                    None
                },
        )
    }

    /// Makes everything before `end` ready, and with it the unready regions that this connects.
    #[verifier::rlimit(60)]
    fn absorb(&mut self, end: StreamPos)
        requires
            old(self).wf(),
            0 < steps(old(self).recv_pos, end) <= old(self).buffer@.free.len(),
        ensures
            final(self).wf(),
            final(self)@ == old(self)@.settled(
                old(self).cells_up_to(steps(old(self).recv_pos, end)),
            ),
    {
        let bound: u32 = end.wrapping_sub(self.recv_pos);
        let connected: usize = self.first_after(bound);
        let mut ready_end: StreamPos = end;
        if connected > 0 {
            let last: StreamPos = self.unready[connected - 1].1;
            let last_end: u32 = last.wrapping_sub(self.recv_pos);
            assert(last_end == self.regions()[connected - 1].1);
            if last_end > bound {
                ready_end = last;
            }
        }
        let n: u32 = ready_end.wrapping_sub(self.recv_pos);
        let ghost regions = self.regions();
        let ghost cells = self.cells_up_to(bound as int);
        proof {
            assert forall|k: int| 0 <= k < n implies cells[k] is Some by {
                if k >= bound {
                    assert(regions[connected - 1].0 <= k < regions[connected - 1].1);
                }
            }
            assert forall|k: int| covers(regions, k) implies k != n by {
                let i = choose|i: int| #![trigger regions[i]]
                    0 <= i < regions.len() && regions[i].0 <= k < regions[i].1;
                if connected > 0 {
                    assert(regions[connected - 1].1 <= n);
                }
                assert(i < connected ==> regions[i].1 <= n);
            }
            lemma_run(cells, n as nat);
        }
        self.splice(0, connected, None);
        self.buffer.writer().advance(n as usize);
        self.recv_pos = ready_end;
        proof {
            lemma_advance(old(self).recv_pos, n as int);
            let shifted = self.regions();
            assert forall|i: int| #![trigger shifted[i]] 0 <= i < shifted.len() implies shifted[i].0
                == regions[i + connected].0 - n && shifted[i].1 == regions[i + connected].1 - n
                && shifted[i].0 > 0 by {
                assert(self.unready@[i] == old(self).unready@[i + connected]);
                let _ = regions[i + connected];
                if connected > 0 {
                    let _ = regions[connected - 1];
                }
            }
            assert forall|k: int| 0 <= k < self.buffer@.free.len() implies covers(shifted, k)
                == covers(regions, k + n) by {
                if covers(shifted, k) {
                    let i = choose|i: int| #![trigger shifted[i]]
                        0 <= i < shifted.len() && shifted[i].0 <= k < shifted[i].1;
                    let _ = regions[i + connected];
                }
                if covers(regions, k + n) {
                    let i = choose|i: int| #![trigger regions[i]]
                        0 <= i < regions.len() && regions[i].0 <= k + n < regions[i].1;
                    if connected > 0 {
                        assert(regions[connected - 1].1 <= n);
                    }
                    assert(i >= connected);
                    let _ = shifted[i - connected];
                }
            }
            assert(self@.ready =~= old(self)@.settled(cells).ready);
            assert(self@.ahead =~= old(self)@.settled(cells).ahead);
        }
    }

    /// Adds the region from `start` to `end`, combined with the regions it overlaps or touches.
    fn insert_region(&mut self, start: StreamPos, end: StreamPos)
        requires
            old(self).wf(),
            0 < steps(old(self).recv_pos, start) < steps(old(self).recv_pos, end)
                <= old(self).buffer@.free.len(),
        ensures
            final(self).wf(),
            final(self).buffer == old(self).buffer,
            final(self).recv_pos == old(self).recv_pos,
            forall|k: int| #[trigger]
                covers(final(self).regions(), k) <==> covers(old(self).regions(), k) || steps(
                    old(self).recv_pos,
                    start,
                ) <= k < steps(old(self).recv_pos, end),
    {
        let low: u32 = start.wrapping_sub(self.recv_pos);
        let high: u32 = end.wrapping_sub(self.recv_pos);
        let from: usize = self.first_reaching(low);
        let to: usize = self.first_after(high);
        let ghost regions = self.regions();
        proof {
            if from > to {
                assert(regions[to as int].0 > high && regions[to as int].1 < low);
            }
        }
        let mut merged_start: StreamPos = start;
        let mut merged_end: StreamPos = end;
        if from < to {
            let first: StreamPos = self.unready[from].0;
            let last: StreamPos = self.unready[to - 1].1;
            assert(regions[from as int].0 == steps(self.recv_pos, first));
            assert(regions[to - 1].1 == steps(self.recv_pos, last));
            if first.wrapping_sub(self.recv_pos) < low {
                merged_start = first;
            }
            if last.wrapping_sub(self.recv_pos) > high {
                merged_end = last;
            }
        }
        self.splice(from, to, Some((merged_start, merged_end)));
        proof {
            assert(self.regions() =~= merge(
                regions,
                low as int,
                high as int,
                from as int,
                to as int,
            ));
            lemma_merge(
                regions,
                self.buffer@.free.len() as int,
                low as int,
                high as int,
                from as int,
                to as int,
            );
        }
    }

    /// Stores `data` in the free cells from offset `from` up to offset `to`, `data` being what belongs
    /// to offset `first` and after it.
    fn fill(&mut self, first: usize, data: &[u8], from: usize, to: usize)
        requires
            old(self).buffer.wf(),
            first <= from <= to <= first + data@.len(),
            to <= old(self).buffer@.free.len(),
        ensures
            final(self).buffer.wf(),
            final(self).recv_pos == old(self).recv_pos,
            final(self).unready == old(self).unready,
            final(self).buffer@.ready == old(self).buffer@.ready,
            final(self).buffer@.free.len() == old(self).buffer@.free.len(),
            forall|k: int| #![trigger final(self).buffer@.free[k]]
                0 <= k < old(self).buffer@.free.len() ==> final(self).buffer@.free[k] == (if from
                    <= k < to {
                    data@[k - first]
                } else {
                    old(self).buffer@.free[k]
                }),
    {
        if from < to {
            let part: &[u8] = vstd::slice::slice_subrange(data, from - first, to - first);
            self.buffer.writer().write_at(from, part);
        }
    }

    /// Stores a block of data that lies within the window, `first` bytes after the ready data, in the
    /// free cells that no unready region holds.
    fn fill_gaps(&mut self, first: usize, block: &[u8])
        requires
            old(self).wf(),
            first + block@.len() <= old(self).buffer@.free.len(),
        ensures
            final(self).wf(),
            final(self).recv_pos == old(self).recv_pos,
            final(self).unready == old(self).unready,
            final(self).buffer@.ready == old(self).buffer@.ready,
            final(self).buffer@.free.len() == old(self).buffer@.free.len(),
            forall|k: int| #![trigger final(self).buffer@.free[k]]
                0 <= k < old(self).buffer@.free.len() ==> final(self).buffer@.free[k] == (if first
                    <= k < first + block@.len() && !covers(old(self).regions(), k) {
                    block@[k - first]
                } else {
                    old(self).buffer@.free[k]
                }),
    {
        proof {
            self.buffer.lemma_capacity();
        }
        let ghost regions = self.regions();
        let ghost free = self.buffer@.free;
        let end: usize = first + block.len();
        // Everything before `done` has been dealt with.
        let mut done: usize = first;
        let mut i: usize = 0;
        while i < self.unready.len()
            invariant
                self.wf(),
                self.recv_pos == old(self).recv_pos,
                self.unready == old(self).unready,
                self.buffer@.ready == old(self).buffer@.ready,
                self.buffer@.free.len() == free.len(),
                free == old(self).buffer@.free,
                regions == old(self).regions(),
                self.regions() == regions,
                first <= done <= end,
                end == first + block@.len() <= free.len() <= MAX_DISTANCE,
                i <= regions.len(),
                regions.len() == self.unready@.len(),
                forall|j: int| #![trigger regions[j]]
                    0 <= j < i ==> regions[j].1 <= done || done == end,
                forall|j: int| #![trigger regions[j]]
                    i <= j < regions.len() ==> done <= regions[j].0 || done == first || done == end,
                forall|k: int| #![trigger self.buffer@.free[k]]
                    0 <= k < free.len() ==> self.buffer@.free[k] == (if first <= k < done
                        && !covers(regions, k) {
                        block@[k - first]
                    } else {
                        free[k]
                    }),
            decreases self.unready@.len() - i,
        {
            let start: usize = self.unready[i].0.wrapping_sub(self.recv_pos) as usize;
            let stop: usize = self.unready[i].1.wrapping_sub(self.recv_pos) as usize;
            assert(start == regions[i as int].0 && stop == regions[i as int].1);
            let gap_end: usize = if start < end {
                start
            } else {
                end
            };
            if done < gap_end {
                self.fill(first, block, done, gap_end);
                assert(self.regions() =~= regions);
                assert forall|k: int| done <= k < gap_end implies !covers(regions, k) by {
                    if covers(regions, k) {
                        let j = choose|j: int| #![trigger regions[j]]
                            0 <= j < regions.len() && regions[j].0 <= k < regions[j].1;
                    }
                }
                done = gap_end;
            }
            if done < stop {
                let next: usize = if stop < end {
                    stop
                } else {
                    end
                };
                if start <= done {
                    assert forall|k: int| done <= k < next implies covers(regions, k) by {
                        assert(regions[i as int].0 <= k < regions[i as int].1);
                    }
                    if done < next {
                        done = next;
                    }
                }
            }
            i = i + 1;
        }
        self.fill(first, block, done, end);
        assert(self.regions() =~= regions);
        assert forall|k: int| done <= k < end implies !covers(regions, k) by {
            if covers(regions, k) {
                let j = choose|j: int| #![trigger regions[j]]
                    0 <= j < regions.len() && regions[j].0 <= k < regions[j].1;
            }
        }
    }

    /// Stores a block of data that lies within the window, `first` bytes after the ready data.
    fn store(&mut self, start_pos: StreamPos, end_pos: StreamPos, first: usize, block: &[u8])
        requires
            old(self).wf(),
            0 < block@.len(),
            first + block@.len() <= old(self)@.ahead.len(),
            steps(old(self)@.recv_pos, end_pos) == first + block@.len(),
            first > 0 ==> steps(old(self)@.recv_pos, start_pos) == first,
        ensures
            final(self).wf(),
            final(self)@ == old(self)@.settled(old(self)@.with_block(first as int, block@)),
    {
        let ghost prior = self@;
        let ghost cells = prior.with_block(first as int, block@);
        proof {
            self.lemma_valid();
        }
        self.fill_gaps(first, block);
        assert(self.regions() =~= old(self).regions());
        if first == 0 {
            // This region touches the end of the ready block, so it becomes ready together with any
            // unready regions that it connects.
            assert(self.cells_up_to(block@.len() as int) =~= cells);
            self.absorb(end_pos);
        } else {
            // This region does not touch the end of the ready block, so it is only combined with
            // the other unready regions.
            self.insert_region(start_pos, end_pos);
            proof {
                assert(self@.ahead =~= cells);
                lemma_run(cells, 0);
                assert(self@ =~= prior.settled(cells));
            }
        }
    }

    /// Receives a new block of data and returns the upper bound of the stream range that was
    /// successfully stored.
    ///
    /// If redundant data is received, all redundant data will be returned as successfully stored,
    /// even data that has already been read out. It will *not* be checked for consistency with
    /// existing data, it will simply be ignored and assumed to be identical.
    ///
    /// The returned upper bound will never be beyond the current window end, any data that falls
    /// beyond the receive window cannot be stored.
    ///
    /// The range formed by the start position and the returned upper bound will never be empty, it
    /// will either be a non-empty range of successfully received data or this method will return
    /// `None`. It will also never be larger than the provided data.
    ///
    /// Received data may not be made immediately available for read if it is not contiguous with
    /// the existing ready data.
    #[verifier::rlimit(60)]
    pub fn recv(&mut self, start_pos: StreamPos, data: &[u8]) -> (stored: Option<StreamPos>)
        requires
            old(self).wf(),
            data@.len() <= MAX_DISTANCE,
        ensures
            final(self).wf(),
            stored == old(self)@.accepted(start_pos, data@.len()),
            final(self)@ == old(self)@.received(start_pos, data@),
    {
        let ghost prior = self@;
        let ghost window = prior.ahead.len() as int;
        let ghost offset = prior.offset(start_pos);
        let ghost last = if offset + data@.len() < window {
            offset + data@.len()
        } else {
            window
        };
        let ghost cells = prior.with_block(offset, data@);
        proof {
            self.lemma_valid();
            lemma_block_positions(self.recv_pos, start_pos, window, data@.len() as int);
            lemma_advance(start_pos, data@.len() as int);
        }
        // `recv_end_pos` is the stream position at the end of the maximum capacity of the receive
        // buffer.
        let recv_end_pos: StreamPos = self.window_end();
        // `data_end_pos` is the stream position at the end of the input data.
        let data_end_pos: StreamPos = start_pos.wrapping_add(data.len() as u32);
        if !stream_lt(start_pos, recv_end_pos) {
            return None;
        }
        // We do not copy data that has already been received, so copying begins at either the given
        // `start_pos` or the current receive position, whichever is greater.
        let copy_start_pos: StreamPos = if stream_gt(self.recv_pos, start_pos) {
            self.recv_pos
        } else {
            start_pos
        };
        // We should not store more data than the receive buffer can hold.
        let end_pos: StreamPos = if stream_lt(data_end_pos, recv_end_pos) {
            data_end_pos
        } else {
            recv_end_pos
        };
        assert(end_pos == advance(start_pos, last - offset));
        assert(prior.accepted_len(start_pos, data@.len()) == last - offset);
        // If we are not copying any new data, then we are done.
        if stream_ge(copy_start_pos, end_pos) {
            proof {
                assert(cells =~= prior.ahead);
                lemma_run(cells, 0);
                assert(prior.settled(cells) =~= prior);
            }
            // There is acknowledged data even if it has already been read and we skip copying it.
            if stream_lt(start_pos, end_pos) {
                return Some(end_pos);
            } else {
                return None;
            }
        }
        // The index in the source data where we start copying from.
        let data_start: usize = copy_start_pos.wrapping_sub(start_pos) as usize;
        // The index in the receive buffer where we start copying to.
        let buf_start: usize = copy_start_pos.wrapping_sub(self.recv_pos) as usize;
        // The index in the receive buffer where we stop copying.
        let buf_end: usize = end_pos.wrapping_sub(self.recv_pos) as usize;
        let block: &[u8] = vstd::slice::slice_subrange(
            data,
            data_start,
            data_start + (buf_end - buf_start),
        );
        self.store(start_pos, end_pos, buf_start, block);
        assert(cells =~= prior.with_block(buf_start as int, block@));
        Some(end_pos)
    }
}

/// The positions that delimit the part of a block of `len` bytes at `start` that a window of `window`
/// bytes after `recv_pos` stores, in terms of the offset of the block from `recv_pos`.
proof fn lemma_block_positions(recv_pos: StreamPos, start: StreamPos, window: int, len: int)
    requires
        0 <= window <= MAX_DISTANCE,
        0 <= len <= MAX_DISTANCE,
    ensures
        ({
            let offset = signed_steps(recv_pos, start);
            let recv_end = advance(recv_pos, window);
            let data_end = advance(start, len);
            let first = if offset > 0 {
                offset
            } else {
                0
            };
            let copy_start = if offset < 0 {
                recv_pos
            } else {
                start
            };
            let last = if offset + len < window {
                offset + len
            } else {
                window
            };
            let end = advance(start, last - offset);
            &&& before(start, recv_end) <==> window - half() < offset < window
            &&& before(start, recv_end) ==> {
                &&& before(start, recv_pos) <==> offset < 0
                &&& start == recv_pos <==> offset == 0
                &&& before(data_end, recv_end) <==> offset + len < window
                &&& end == (if offset + len < window {
                    data_end
                } else {
                    recv_end
                })
                &&& copy_start == end || before(end, copy_start) <==> last <= first
                &&& before(start, end) <==> 0 < len
                &&& steps(start, copy_start) == first - offset
                &&& steps(recv_pos, copy_start) == first
                &&& first < last ==> steps(recv_pos, end) == last
            }
        }),
{
    let offset = signed_steps(recv_pos, start);
    let first = if offset > 0 {
        offset
    } else {
        0
    };
    let last = if offset + len < window {
        offset + len
    } else {
        window
    };
    lemma_signed_steps(recv_pos, start);
    assert(start == advance(recv_pos, offset));
    assert(advance(recv_pos, 0) == recv_pos);
    lemma_advance_twice(recv_pos, offset, window - offset);
    assert(before(start, advance(recv_pos, window)) <==> window - half() < offset < window) by {
        if window - offset < half() {
            lemma_order_from_base(recv_pos, offset, window);
        } else {
            lemma_order_from_base(recv_pos, offset, window - half());
            lemma_advance_twice(recv_pos, window - half(), half());
        }
    }
    if window - half() < offset < window {
        lemma_advance_twice(recv_pos, offset, len);
        lemma_advance_twice(recv_pos, offset, last - offset);
        lemma_order_from_base(recv_pos, offset, 0);
        lemma_order_from_base(recv_pos, 0, first);
        lemma_order_from_base(recv_pos, offset, first);
        lemma_order_from_base(recv_pos, offset + len, window);
        lemma_order_from_base(recv_pos, last, first);
        lemma_order_from_base(recv_pos, offset, last);
        lemma_order_from_base(recv_pos, 0, last);
    }
}

impl RecvView {
    /// The window is the receiving side of a stream that starts at `origin` and holds `stream`, of
    /// which the first `read` bytes have been read: everything it holds is what the stream holds at
    /// that position.
    pub open spec fn agrees(self, stream: Seq<u8>, origin: StreamPos, read: nat) -> bool {
        &&& read + self.ready.len() <= stream.len()
        &&& self.recv_pos == advance(origin, (read + self.ready.len()) as int)
        &&& self.ready == stream.subrange(read as int, (read + self.ready.len()) as int)
        &&& forall|k: int|
            0 <= k < self.ahead.len() && #[trigger] self.ahead[k] is Some ==> {
                &&& read + self.ready.len() + k < stream.len()
                &&& self.ahead[k] == Some(stream[read + self.ready.len() + k])
            }
    }
}

/// Receiving any part of the stream, early or late, once or again, keeps the window in agreement
/// with the stream. The part must lie less than 2^31 positions away from what is ready.
pub proof fn law_receive_agrees(
    window: RecvView,
    stream: Seq<u8>,
    origin: StreamPos,
    read: nat,
    at: int,
    len: nat,
)
    requires
        window.valid(),
        window.agrees(stream, origin, read),
        0 <= at,
        at + len <= stream.len(),
        -half() < at - (read + window.ready.len()) < half(),
    ensures
        ({
            let next = window.received(advance(origin, at), stream.subrange(at, at + len));
            &&& next.valid()
            &&& next.agrees(stream, origin, read)
            &&& next.capacity() == window.capacity()
            &&& window.ready.len() <= next.ready.len()
        }),
{
    let start = advance(origin, at);
    let data = stream.subrange(at, at + len);
    let reached = (read + window.ready.len()) as int;
    lemma_advance_twice(origin, reached, at - reached);
    lemma_order_from_base(origin, reached, at);
    assert(window.offset(start) == at - reached);
    if window.in_reach(start) {
        let cells = window.with_block(window.offset(start), data);
        let n = run(cells);
        let next = window.settled(cells);
        lemma_run_is_prefix(cells);
        assert forall|k: int| 0 <= k < cells.len() && cells[k] is Some implies reached + k
            < stream.len() && cells[k] == Some(stream[reached + k]) by {
            if !(window.offset(start) <= k < window.offset(start) + data.len()) {
                assert(window.ahead[k] is Some);
            }
        }
        if n > 0 {
            assert(cells[n - 1] is Some);
        }
        assert(next.ready =~= stream.subrange(read as int, (read + next.ready.len()) as int));
        lemma_advance_twice(origin, reached, n as int);
        assert forall|k: int| 0 <= k < next.ahead.len() && #[trigger] next.ahead[k] is Some implies {
            &&& read + next.ready.len() + k < stream.len()
            &&& next.ahead[k] == Some(stream[read + next.ready.len() + k])
        } by {
            assert(next.ahead[k] == cells[n + k]);
        }
    }
}

/// What is read is the next part of the stream, in order.
pub proof fn law_read_agrees(
    window: RecvView,
    stream: Seq<u8>,
    origin: StreamPos,
    read: nat,
    n: nat,
)
    requires
        window.valid(),
        window.agrees(stream, origin, read),
        n <= window.ready.len(),
    ensures
        window.ready.take(n as int) == stream.subrange(read as int, (read + n) as int),
        window.reading(n).valid(),
        window.reading(n).agrees(stream, origin, read + n),
        window.reading(n).capacity() == window.capacity(),
{
    let next = window.reading(n);
    assert(window.ready.take(n as int) =~= stream.subrange(read as int, (read + n) as int));
    assert(next.ready =~= stream.subrange((read + n) as int, (read + n + next.ready.len()) as int));
    assert forall|k: int| 0 <= k < next.ahead.len() && #[trigger] next.ahead[k] is Some implies {
        &&& read + n + next.ready.len() + k < stream.len()
        &&& next.ahead[k] == Some(stream[read + n + next.ready.len() + k])
    } by {
        assert(window.ahead[k] is Some);
    }
}

/// The reported upper bound lies within the provided data and not beyond the window end, and the
/// reported range is not empty. Where nothing is reported, nothing is stored.
pub proof fn law_accepted_bounds(window: RecvView, start: StreamPos, data: Seq<u8>)
    requires
        window.valid(),
        data.len() <= MAX_DISTANCE,
    ensures
        window.accepted(start, data.len()) matches Some(end) ==> {
            &&& 0 < steps(start, end) <= data.len()
            &&& end == window.window_end() || before(end, window.window_end())
        },
        window.accepted(start, data.len()) is None ==> window.received(start, data) == window,
{
    lemma_block_positions(window.recv_pos, start, window.ahead.len() as int, data.len() as int);
    let n = window.accepted_len(start, data.len());
    lemma_advance(start, n as int);
    if n > 0 {
        let offset = window.offset(start);
        lemma_signed_steps(window.recv_pos, start);
        lemma_advance_twice(window.recv_pos, offset, n as int);
        lemma_order_from_base(window.recv_pos, offset + n, window.ahead.len() as int);
    } else if window.in_reach(start) {
        let cells = window.with_block(window.offset(start), data);
        assert(cells =~= window.ahead);
        lemma_run(cells, 0);
        assert(window.settled(cells) =~= window);
    }
}

/// Data that starts where the ready bytes end, or before, makes all bytes ready that it holds and the
/// window has room for.
pub proof fn law_receive_progress(window: RecvView, start: StreamPos, data: Seq<u8>)
    requires
        window.valid(),
        window.in_reach(start),
        window.offset(start) <= 0 < window.offset(start) + data.len(),
    ensures
        window.received(start, data).ready.len() >= window.ready.len() + min_nat(
            (window.offset(start) + data.len()) as nat,
            window.ahead.len(),
        ),
{
    let cells = window.with_block(window.offset(start), data);
    let n = min_nat((window.offset(start) + data.len()) as nat, window.ahead.len());
    lemma_run_is_prefix(cells);
    if run(cells) < n {
        assert(cells[run(cells) as int] is Some);
    }
}

/// Redundant data is ignored: whatever is received, the bytes that the window holds stay as they are,
/// also those that wait ahead of a gap.
pub proof fn law_redundant_ignored(window: RecvView, start: StreamPos, data: Seq<u8>)
    requires
        window.valid(),
    ensures
        ({
            let next = window.received(start, data);
            let moved = next.ready.len() - window.ready.len();
            &&& moved >= 0
            &&& next.ready.take(window.ready.len() as int) == window.ready
            &&& forall|k: int|
                0 <= k < window.ahead.len() && #[trigger] window.ahead[k] is Some ==> if k < moved {
                    next.ready[window.ready.len() + k] == window.ahead[k]->0
                } else {
                    next.ahead[k - moved] == window.ahead[k]
                }
        }),
{
    let next = window.received(start, data);
    assert(next.ready.take(window.ready.len() as int) =~= window.ready);
}

/// What the window has received of the stream, counted from `recv_pos`, after `window` has turned into
/// `next`.
pub open spec fn cell_after(window: RecvView, next: RecvView, k: int) -> Option<u8> {
    let moved = next.ready.len() - window.ready.len();
    if k < moved {
        Some(next.ready[window.ready.len() + k])
    } else {
        next.ahead[k - moved]
    }
}

/// Everything that falls into the window is stored, and reported: of data that is received `at` steps after
/// what is ready, or before it, each byte that is still missing is stored if it does not lie beyond the
/// window end, and the reported range goes that far. The other bytes stay as they are, and the stored
/// bytes up to the first gap become ready. Data that is so far back that it has no order with the window
/// end is not stored.
pub proof fn law_receive_stores_all(window: RecvView, at: int, data: Seq<u8>)
    requires
        window.valid(),
        data.len() <= MAX_DISTANCE,
        -0x8000_0000 <= at < 0x8000_0000,
    ensures
        ({
            let start = advance(window.recv_pos, at);
            let next = window.received(start, data);
            let accepted = window.accepted(start, data.len());
            let ordered = at - window.ahead.len() > -0x8000_0000;
            &&& accepted is Some <==> ordered && at < window.ahead.len() && data.len() > 0
            &&& accepted is Some && at + data.len() <= window.ahead.len() ==> accepted == Some(
                advance(start, data.len() as int),
            )
            &&& accepted is Some && at + data.len() > window.ahead.len() ==> accepted == Some(
                advance(window.recv_pos, window.ahead.len() as int),
            )
            &&& next.ready.len() >= window.ready.len()
            &&& next.ready.len() + next.ahead.len() == window.ready.len() + window.ahead.len()
            &&& next.ready.take(window.ready.len() as int) == window.ready
            &&& next.ahead.len() > 0 ==> next.ahead[0] is None
            &&& next.recv_pos == advance(
                window.recv_pos,
                next.ready.len() - window.ready.len(),
            )
            &&& forall|k: int|
                0 <= k < window.ahead.len() ==> #[trigger] cell_after(window, next, k) == (if ordered
                    && at <= k < at + data.len() && window.ahead[k] is None {
                    Some(data[k - at])
                } else {
                    window.ahead[k]
                })
        }),
{
    let start = advance(window.recv_pos, at);
    let next = window.received(start, data);
    lemma_block_positions(window.recv_pos, start, window.ahead.len() as int, data.len() as int);
    if at > -half() {
        lemma_order_from_base(window.recv_pos, 0, at);
    }
    lemma_signed_steps(window.recv_pos, start);
    assert(window.offset(start) == at);
    assert(next.ready.take(window.ready.len() as int) =~= window.ready);
    if window.in_reach(start) {
        let cells = window.with_block(at, data);
        lemma_run_is_prefix(cells);
        lemma_advance_twice(window.recv_pos, at, window.ahead.len() - at);
        lemma_advance_twice(window.recv_pos, at, data.len() as int);
        assert forall|k: int| 0 <= k < window.ahead.len() implies #[trigger] cell_after(
            window,
            next,
            k,
        ) == cells[k] by {
        }
    } else {
        assert(advance(window.recv_pos, 0) == window.recv_pos);
    }
}

/// The window end is where no more data could be received: data that starts there, or after it, is not
/// stored, and a byte right before it is, unless the window is full. It stays where it is when data is
/// received, and moves forward by what is read.
pub proof fn law_window_end(
    window: RecvView,
    past: int,
    start: StreamPos,
    data: Seq<u8>,
    n: nat,
)
    requires
        window.valid(),
        data.len() <= MAX_DISTANCE,
        0 <= past < 0x8000_0000 - window.ahead.len(),
        n <= window.ready.len(),
    ensures
        window.accepted(advance(window.window_end(), past), data.len()) is None,
        window.received(advance(window.window_end(), past), data) == window,
        window.ahead.len() > 0 ==> window.accepted(advance(window.window_end(), -1), 1) == Some(
            window.window_end(),
        ),
        window.received(start, data).window_end() == window.window_end(),
        window.reading(n).window_end() == advance(window.window_end(), n as int),
        window.reading(n).recv_pos == window.recv_pos,
        window.reading(n).ready == window.ready.skip(n as int),
{
    let len = window.ahead.len() as int;
    lemma_advance_twice(window.recv_pos, len, past);
    law_receive_stores_all(window, len + past, data);
    law_accepted_bounds(window, advance(window.window_end(), past), data);
    if len > 0 {
        lemma_advance_twice(window.recv_pos, len, -1);
        law_receive_stores_all(window, len - 1, seq![0u8]);
        lemma_advance_twice(window.recv_pos, len - 1, 1);
    }
    if window.in_reach(start) {
        let cells = window.with_block(window.offset(start), data);
        lemma_run_is_prefix(cells);
        lemma_advance_twice(window.recv_pos, run(cells) as int, len - run(cells));
    }
    lemma_advance_twice(window.recv_pos, len, n as int);
}

/// Receiving the same data again changes nothing.
pub proof fn law_receive_twice(window: RecvView, start: StreamPos, data: Seq<u8>)
    requires
        window.valid(),
    ensures
        window.received(start, data).received(start, data) == window.received(start, data),
{
    if window.in_reach(start) {
        let once = window.received(start, data);
        let cells = window.with_block(window.offset(start), data);
        let n = run(cells);
        lemma_run_is_prefix(cells);
        lemma_signed_steps(window.recv_pos, start);
        lemma_advance_twice(window.recv_pos, n as int, window.offset(start) - n);
        lemma_order_from_base(window.recv_pos, n as int, window.offset(start));
        assert(once.offset(start) == window.offset(start) - n);
        let again = once.with_block(once.offset(start), data);
        assert(again =~= once.ahead);
        lemma_run(again, 0);
        assert(once.settled(again) =~= once);
    }
}

/// The reading end of a [`RecvWindow`].
pub struct RecvWindowReader<'a> {
    pub window: &'a mut RecvWindow,
}

impl<'a> RecvWindowReader<'a> {
    /// The borrowed window is well-formed.
    pub open spec fn wf(&self) -> bool {
        self.window.wf()
    }

    /// The state of the borrowed window.
    pub open spec fn view(&self) -> RecvView {
        self.window@
    }

    /// Reads any ready data off of the beginning of the read buffer and returns the number of bytes
    /// read.
    pub fn read(&mut self, data: &mut [u8]) -> (len: u32)
        requires
            old(self).wf(),
        ensures
            final(self).wf(),
            len == min_nat(old(self)@.ready.len(), old(data)@.len()),
            len == old(data)@.len() || final(self)@.ready.len() == 0,
            final(data)@.take(len as int) + final(self)@.ready == old(self)@.ready,
            final(data)@.skip(len as int) == old(data)@.skip(len as int),
            final(data)@ == overlay(old(data)@, 0, old(self)@.ready.take(len as int)),
            final(self)@ == old(self)@.reading(len as nat),
            *final(final(self).window) == *final(old(self).window),
    {
        self.window.read(data)
    }
}

} // verus!
