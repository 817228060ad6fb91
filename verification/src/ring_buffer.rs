//! A fixed capacity byte ring with one writing end and one reading end.
//!
//! The ring keeps two positions that run over twice the capacity, so that a full ring and an empty
//! ring can be told apart without giving up a byte of storage. Its model is a pair of sequences:
//! the bytes that are ready to be read, and the free cells that follow them in writing order.

use vstd::prelude::*;

verus! {

/// The contents of a [`RingBuffer`].
#[verifier::ext_equal]
pub struct RingView {
    /// Bytes that were written and not yet consumed, oldest first.
    pub ready: Seq<u8>,
    /// The cells after the ready bytes, in the order in which they will be written.
    pub free: Seq<u8>,
}

pub open spec fn min_nat(a: nat, b: nat) -> nat {
    if a <= b {
        a
    } else {
        b
    }
}

/// How many of `len` bytes fit when `limit` cells exist and the first `offset` of them are skipped.
pub open spec fn fitting(limit: nat, offset: nat, len: nat) -> nat {
    if offset >= limit {
        0
    } else {
        min_nat((limit - offset) as nat, len)
    }
}

/// `base` with the bytes of `data` stored from index `at` on.
pub open spec fn overlay(base: Seq<u8>, at: int, data: Seq<u8>) -> Seq<u8> {
    Seq::new(
        base.len(),
        |i: int|
            if at <= i < at + data.len() {
                data[i - at]
            } else {
                base[i]
            },
    )
}

impl RingView {
    /// The total number of cells.
    pub open spec fn capacity(self) -> nat {
        self.ready.len() + self.free.len()
    }

    /// The contents after `data` is stored in the free cells, `offset` cells past the ready bytes.
    pub open spec fn store(self, offset: nat, data: Seq<u8>) -> RingView {
        let n = fitting(self.free.len(), offset, data.len());
        RingView { ready: self.ready, free: overlay(self.free, offset as int, data.take(n as int)) }
    }

    /// The contents after the first `n` free cells become ready.
    pub open spec fn commit(self, n: nat) -> RingView {
        RingView { ready: self.ready + self.free.take(n as int), free: self.free.skip(n as int) }
    }

    /// The contents after as much of `data` as fits is appended to the ready bytes.
    pub open spec fn append(self, data: Seq<u8>) -> RingView {
        let n = min_nat(self.free.len(), data.len());
        RingView {
            ready: self.ready + data.take(n as int),
            free: self.free.skip(n as int),
        }
    }

    /// The contents after the first `n` ready bytes are given up.
    pub open spec fn consume(self, n: nat) -> RingView {
        RingView { ready: self.ready.skip(n as int), free: self.free + self.ready.take(n as int) }
    }
}

/// The cell of a ring of `capacity` cells that lies `i` cells after position `pos`.
spec fn cell_index(capacity: int, pos: int, i: int) -> int {
    let p = (if pos < capacity {
        pos
    } else {
        pos - capacity
    }) + i;
    if p < capacity {
        p
    } else {
        p - capacity
    }
}

/// Storing a block that may wrap around the end of the cells changes exactly the cells that lie
/// `first..first + n` after `tail`.
proof fn lemma_store_cells(cells: Seq<u8>, tail: int, first: int, data: Seq<u8>, left: int)
    requires
        0 < cells.len(),
        0 <= tail < 2 * cells.len(),
        0 <= first,
        0 <= left <= data.len(),
        first + data.len() <= cells.len(),
        first < cells.len(),
        left == (if cells.len() - cell_index(cells.len() as int, tail, first) < data.len() {
            cells.len() - cell_index(cells.len() as int, tail, first)
        } else {
            data.len() as int
        }),
    ensures
        ({
            let capacity = cells.len() as int;
            let start = cell_index(capacity, tail, first);
            let stored = overlay(
                overlay(cells, start, data.take(left)),
                0,
                data.skip(left),
            );
            forall|i: int|
                0 <= i < capacity ==> #[trigger] stored[cell_index(capacity, tail, i)] == (if first
                    <= i < first + data.len() {
                    data[i - first]
                } else {
                    cells[cell_index(capacity, tail, i)]
                })
        }),
{
}

/// The number of bytes from position `tail` forward to position `head`.
pub open spec fn distance(capacity: int, tail: int, head: int) -> int {
    if tail <= head {
        head - tail
    } else {
        2 * capacity - tail + head
    }
}

/// A position of a ring of `capacity` cells.
pub open spec fn is_position(capacity: int, pos: int) -> bool {
    0 <= pos < 2 * capacity
}

/// The position `n` cells after position `pos`.
pub open spec fn moved(capacity: int, pos: int, n: int) -> int {
    (pos + n) % (2 * capacity)
}

/// The index of the cell that position `pos` stands for.
pub open spec fn collapsed(capacity: int, pos: int) -> int {
    pos % capacity
}

/// Maps a position to the index of the cell it stands for.
pub(crate) fn collapse_position(capacity: usize, pos: usize) -> (index: usize)
    requires
        is_position(capacity as int, pos as int),
    ensures
        index < capacity,
        index == pos || index == pos - capacity,
        index == collapsed(capacity as int, pos as int),
{
    if pos < capacity {
        proof {
            vstd::arithmetic::div_mod::lemma_small_mod(pos as nat, capacity as nat);
        }
        pos
    } else {
        proof {
            vstd::arithmetic::div_mod::lemma_mod_sub_multiples_vanish(
                pos as int,
                capacity as int,
            );
            vstd::arithmetic::div_mod::lemma_small_mod(
                (pos - capacity) as nat,
                capacity as nat,
            );
        }
        pos - capacity
    }
}

/// The number of readable bytes between the two positions.
pub(crate) fn tail_to_head(capacity: usize, tail: usize, head: usize) -> (len: usize)
    requires
        is_position(capacity as int, tail as int),
        is_position(capacity as int, head as int),
        distance(capacity as int, tail as int, head as int) <= capacity,
    ensures
        len == distance(capacity as int, tail as int, head as int),
{
    if tail <= head {
        head - tail
    } else {
        capacity - (tail - capacity) + head
    }
}

/// The number of writable bytes between the two positions.
pub(crate) fn head_to_tail(capacity: usize, head: usize, tail: usize) -> (len: usize)
    requires
        is_position(capacity as int, tail as int),
        is_position(capacity as int, head as int),
        distance(capacity as int, tail as int, head as int) <= capacity,
    ensures
        len == capacity - distance(capacity as int, tail as int, head as int),
{
    capacity - tail_to_head(capacity, tail, head)
}

/// Moves a position forward by `n` cells.
pub(crate) fn increment(capacity: usize, pos: usize, n: usize) -> (next: usize)
    requires
        2 * capacity <= usize::MAX,
        is_position(capacity as int, pos as int),
        n <= capacity,
    ensures
        is_position(capacity as int, next as int),
        next == moved(capacity as int, pos as int, n as int),
        next == (if pos + n < 2 * capacity {
            pos + n
        } else {
            pos + n - 2 * capacity
        }),
{
    proof {
        lemma_moved(capacity as int, pos as int, n as int);
    }
    if n == 0 {
        return pos;
    }
    let threshold: usize = (capacity - n) + capacity;
    if pos < threshold {
        pos + n
    } else {
        pos - threshold
    }
}

/// Moving forward by at most the capacity goes around the positions at most once.
proof fn lemma_moved(capacity: int, pos: int, n: int)
    requires
        is_position(capacity, pos),
        0 <= n <= capacity,
    ensures
        moved(capacity, pos, n) == (if pos + n < 2 * capacity {
            pos + n
        } else {
            pos + n - 2 * capacity
        }),
{
    if pos + n < 2 * capacity {
        vstd::arithmetic::div_mod::lemma_small_mod((pos + n) as nat, (2 * capacity) as nat);
    } else {
        vstd::arithmetic::div_mod::lemma_mod_sub_multiples_vanish(pos + n, 2 * capacity);
        vstd::arithmetic::div_mod::lemma_small_mod(
            (pos + n - 2 * capacity) as nat,
            (2 * capacity) as nat,
        );
    }
}

/// Moving a position forward by `n` cells puts `n` readable cells between the two, leaves the rest of
/// the capacity writable, and gets to the cell `n` cells further on.
pub proof fn law_moved_by_distance(capacity: int, pos: int, n: int)
    requires
        is_position(capacity, pos),
        0 <= n <= capacity,
    ensures
        is_position(capacity, moved(capacity, pos, n)),
        distance(capacity, pos, moved(capacity, pos, n)) == n,
        capacity - distance(capacity, pos, moved(capacity, pos, n)) == capacity - n,
        collapsed(capacity, moved(capacity, pos, n)) == (pos + n) % capacity,
{
    lemma_moved(capacity, pos, n);
    vstd::arithmetic::div_mod::lemma_mod_mod(pos + n, capacity, 2);
    assert(capacity * 2 == 2 * capacity);
}

/// A single-producer, single-consumer byte ring.
///
/// The two ends are borrowed from the ring in turn, with [`RingBuffer::writer`] and
/// [`RingBuffer::reader`].
pub struct RingBuffer {
    buffer: Vec<u8>,
    head: usize,
    tail: usize,
}

/// Creates an empty ring buffer that holds `capacity` bytes.
pub fn ring_buffer(capacity: usize) -> (ring: RingBuffer)
    requires
        0 < capacity <= usize::MAX / 2,
    ensures
        ring.wf(),
        ring@.ready.len() == 0,
        ring@.free.len() == capacity,
{
    RingBuffer::new(capacity)
}

impl RingBuffer {
    spec fn cells(&self) -> Seq<u8> {
        Seq::new(
            self.buffer@.len(),
            |i: int| self.buffer@[cell_index(self.buffer@.len() as int, self.tail as int, i)],
        )
    }

    spec fn filled(&self) -> int {
        distance(self.buffer@.len() as int, self.tail as int, self.head as int)
    }

    /// The positions of the two ends are consistent with the capacity.
    pub closed spec fn wf(&self) -> bool {
        let capacity = self.buffer@.len() as int;
        &&& 0 < capacity
        &&& 2 * capacity <= usize::MAX
        &&& is_position(capacity, self.head as int)
        &&& is_position(capacity, self.tail as int)
        &&& self.filled() <= capacity
    }

    pub closed spec fn view(&self) -> RingView {
        RingView {
            ready: self.cells().take(self.filled()),
            free: self.cells().skip(self.filled()),
        }
    }

    /// A well-formed ring has room for at least one byte, and its capacity can be doubled.
    pub proof fn lemma_capacity(&self)
        requires
            self.wf(),
        ensures
            0 < self@.capacity() <= usize::MAX / 2,
    {
    }

    fn new(capacity: usize) -> (ring: RingBuffer)
        requires
            0 < capacity <= usize::MAX / 2,
        ensures
            ring.wf(),
            ring@.ready.len() == 0,
            ring@.free.len() == capacity,
    {
        RingBuffer { buffer: vec![0;capacity], head: 0, tail: 0 }
    }

    /// The number of bytes that can be written before the ring is full.
    pub fn write_available(&self) -> (n: usize)
        requires
            self.wf(),
        ensures
            n == self@.free.len(),
    {
        head_to_tail(self.buffer.len(), self.head, self.tail)
    }

    /// The number of bytes that are ready to be read.
    pub fn read_available(&self) -> (n: usize)
        requires
            self.wf(),
        ensures
            n == self@.ready.len(),
    {
        tail_to_head(self.buffer.len(), self.tail, self.head)
    }

    /// Borrows the writing end.
    pub fn writer(&mut self) -> (writer: Writer<'_>)
        ensures
            *writer.ring == *old(self),
            *final(self) == *final(writer.ring),
    {
        Writer { ring: self }
    }

    /// Borrows the reading end.
    pub fn reader(&mut self) -> (reader: Reader<'_>)
        ensures
            *reader.ring == *old(self),
            *final(self) == *final(reader.ring),
    {
        Reader { ring: self }
    }

    /// Copies `data[from..from + n]` to the cells `at..at + n`.
    fn copy_in(&mut self, at: usize, data: &[u8], from: usize, n: usize)
        requires
            at + n <= old(self).buffer@.len(),
            from + n <= data@.len(),
        ensures
            final(self).head == old(self).head,
            final(self).tail == old(self).tail,
            final(self).buffer@ == overlay(
                old(self).buffer@,
                at as int,
                data@.subrange(from as int, from + n),
            ),
    {
        let mut i: usize = 0;
        while i < n
            invariant
                i <= n,
                at + n <= self.buffer.len(),
                from + n <= data.len(),
                self.head == old(self).head,
                self.tail == old(self).tail,
                self.buffer@ == overlay(
                    old(self).buffer@,
                    at as int,
                    data@.subrange(from as int, from + i),
                ),
            decreases n - i,
        {
            self.buffer[at + i] = data[from + i];
            i = i + 1;
        }
    }

    /// Stores `data` in the free cells from `offset` on, without making it ready.
    fn store(&mut self, offset: usize, data: &[u8]) -> (n: usize)
        requires
            old(self).wf(),
        ensures
            final(self).wf(),
            n == fitting(old(self)@.free.len(), offset as nat, data@.len()),
            final(self)@ == old(self)@.store(offset as nat, data@),
            final(self).head == old(self).head,
            final(self).tail == old(self).tail,
    {
        let capacity: usize = self.buffer.len();
        let available: usize = self.write_available();
        let ghost target = self@.store(offset as nat, data@);
        if offset >= available {
            assert(self@ =~= target);
            return 0;
        }
        let room: usize = available - offset;
        let n: usize = if room < data.len() {
            room
        } else {
            data.len()
        };
        let head: usize = collapse_position(capacity, self.head);
        let start: usize = collapse_position(capacity, head + offset);
        let left_room: usize = capacity - start;
        let left: usize = if left_room < n {
            left_room
        } else {
            n
        };
        self.copy_in(start, data, 0, left);
        self.copy_in(0, data, left, n - left);
        proof {
            let first = self.filled() + offset;
            let block = data@.take(n as int);
            assert(start == cell_index(capacity as int, self.tail as int, first));
            lemma_store_cells(old(self).buffer@, self.tail as int, first, block, left as int);
            assert(data@.subrange(0, left as int) =~= block.take(left as int));
            assert(data@.subrange(left as int, n as int) =~= block.skip(left as int));
            assert(self.cells().len() == capacity);
            assert forall|i: int| 0 <= i < capacity implies #[trigger] self.cells()[i] == (if first
                <= i < first + n {
                block[i - first]
            } else {
                old(self).cells()[i]
            }) by {
                let index = cell_index(capacity as int, self.tail as int, i);
                assert(self.cells()[i] == self.buffer@[index]);
            }
            assert(self@.ready =~= target.ready);
            assert(self@.free =~= target.free);
        }
        n
    }

    /// Makes the first `n` free cells ready.
    fn commit(&mut self, n: usize)
        requires
            old(self).wf(),
            n <= old(self)@.free.len(),
        ensures
            final(self).wf(),
            final(self)@ == old(self)@.commit(n as nat),
    {
        self.head = increment(self.buffer.len(), self.head, n);
        assert(self@ =~= old(self)@.commit(n as nat));
    }

    /// Gives up the first `n` ready bytes.
    fn consume(&mut self, n: usize)
        requires
            old(self).wf(),
            n <= old(self)@.ready.len(),
        ensures
            final(self).wf(),
            final(self)@ == old(self)@.consume(n as nat),
    {
        self.tail = increment(self.buffer.len(), self.tail, n);
        assert(self@ =~= old(self)@.consume(n as nat));
    }

    /// Copies ready bytes, starting `offset` bytes after the oldest one, to the front of `data`
    /// and returns how many bytes were copied.
    pub fn peek(&self, offset: usize, data: &mut [u8]) -> (n: usize)
        requires
            self.wf(),
        ensures
            n == fitting(self@.ready.len(), offset as nat, old(data)@.len()),
            n <= old(data)@.len(),
            n > 0 ==> offset + n <= self@.ready.len(),
            n < old(data)@.len() ==> offset + n >= self@.ready.len(),
            final(data)@.take(n as int) == self@.ready.skip(offset as int).take(n as int),
            final(data)@.skip(n as int) == old(data)@.skip(n as int),
            final(data)@ == overlay(
                old(data)@,
                0,
                self@.ready.skip(offset as int).take(n as int),
            ),
    {
        let capacity: usize = self.buffer.len();
        let available: usize = self.read_available();
        if offset >= available {
            assert(data@ =~= overlay(data@, 0, self@.ready.skip(offset as int).take(0)));
            return 0;
        }
        let room: usize = available - offset;
        let n: usize = if room < data.len() {
            room
        } else {
            data.len()
        };
        let tail: usize = collapse_position(capacity, self.tail);
        let mut index: usize = collapse_position(capacity, tail + offset);
        let ghost source = self@.ready.skip(offset as int);
        let mut i: usize = 0;
        while i < n
            invariant
                self.wf(),
                capacity == self.buffer@.len(),
                i <= n <= data@.len(),
                offset + n <= self@.ready.len(),
                source == self@.ready.skip(offset as int),
                i < n ==> index == cell_index(capacity as int, self.tail as int, offset + i),
                i < n ==> index < capacity,
                data@ == overlay(old(data)@, 0, source.take(i as int)),
            decreases n - i,
        {
            data[i] = self.buffer[index];
            i = i + 1;
            index = index + 1;
            if index == capacity {
                index = 0;
            }
            assert(data@ =~= overlay(old(data)@, 0, source.take(i as int)));
        }
        n
    }
}

/// The writing end of a [`RingBuffer`].
pub struct Writer<'a> {
    pub ring: &'a mut RingBuffer,
}

impl<'a> Writer<'a> {
    /// The borrowed ring is well-formed.
    pub open spec fn wf(&self) -> bool {
        self.ring.wf()
    }

    /// The contents of the borrowed ring.
    pub open spec fn view(&self) -> RingView {
        self.ring@
    }

    /// The number of bytes that can be written before the ring is full.
    pub fn available(&self) -> (n: usize)
        requires
            self.wf(),
        ensures
            n == self@.free.len(),
    {
        self.ring.write_available()
    }

    /// Appends as much of `data` as fits and returns how many bytes that was.
    pub fn write(&mut self, data: &[u8]) -> (n: usize)
        requires
            old(self).wf(),
        ensures
            final(self).wf(),
            n == min_nat(old(self)@.free.len(), data@.len()),
            final(self)@ == old(self)@.append(data@),
            n <= data@.len(),
            n < data@.len() ==> final(self)@.free.len() == 0,
            final(self)@.ready == old(self)@.ready + data@.take(n as int),
            *final(final(self).ring) == *final(old(self).ring),
    {
        let n: usize = self.ring.store(0, data);
        self.ring.commit(n);
        assert(self.ring@ =~= old(self)@.append(data@));
        n
    }

    /// Stores `data` in the free cells from `offset` on and returns how many bytes fit. The bytes
    /// become ready only once [`Writer::advance`] has passed them.
    pub fn write_at(&mut self, offset: usize, data: &[u8]) -> (n: usize)
        requires
            old(self).wf(),
        ensures
            final(self).wf(),
            n == fitting(old(self)@.free.len(), offset as nat, data@.len()),
            final(self)@ == old(self)@.store(offset as nat, data@),
            n <= data@.len(),
            n > 0 ==> offset + n <= old(self)@.free.len(),
            n < data@.len() ==> offset + n >= old(self)@.free.len(),
            final(self)@.ready == old(self)@.ready,
            final(self)@.free.len() == old(self)@.free.len(),
            forall|i: int|
                0 <= i < old(self)@.free.len() ==> #[trigger] final(self)@.free[i] == (if offset <= i
                    < offset + n {
                    data@[i - offset]
                } else {
                    old(self)@.free[i]
                }),
            *final(final(self).ring) == *final(old(self).ring),
    {
        self.ring.store(offset, data)
    }

    /// Makes up to `n` free cells ready and returns how many cells that was.
    pub fn advance(&mut self, n: usize) -> (moved: usize)
        requires
            old(self).wf(),
        ensures
            final(self).wf(),
            moved == min_nat(old(self)@.free.len(), n as nat),
            final(self)@ == old(self)@.commit(moved as nat),
            moved <= n,
            moved < n ==> final(self)@.free.len() == 0,
            final(self)@.ready == old(self)@.ready + old(self)@.free.take(moved as int),
            *final(final(self).ring) == *final(old(self).ring),
    {
        let available: usize = self.ring.write_available();
        let moved: usize = if available < n {
            available
        } else {
            n
        };
        self.ring.commit(moved);
        moved
    }
}

/// The reading end of a [`RingBuffer`].
pub struct Reader<'a> {
    pub ring: &'a mut RingBuffer,
}

impl<'a> Reader<'a> {
    /// The borrowed ring is well-formed.
    pub open spec fn wf(&self) -> bool {
        self.ring.wf()
    }

    /// The contents of the borrowed ring.
    pub open spec fn view(&self) -> RingView {
        self.ring@
    }

    /// The number of bytes that are ready to be read.
    pub fn available(&self) -> (n: usize)
        requires
            self.wf(),
        ensures
            n == self@.ready.len(),
    {
        self.ring.read_available()
    }

    /// Copies ready bytes, starting `offset` bytes after the oldest one, to the front of `data`
    /// and returns how many bytes were copied.
    pub fn peek(&self, offset: usize, data: &mut [u8]) -> (n: usize)
        requires
            self.wf(),
        ensures
            n == fitting(self@.ready.len(), offset as nat, old(data)@.len()),
            n <= old(data)@.len(),
            n > 0 ==> offset + n <= self@.ready.len(),
            n < old(data)@.len() ==> offset + n >= self@.ready.len(),
            final(data)@.take(n as int) == self@.ready.skip(offset as int).take(n as int),
            final(data)@.skip(n as int) == old(data)@.skip(n as int),
            final(data)@ == overlay(
                old(data)@,
                0,
                self@.ready.skip(offset as int).take(n as int),
            ),
    {
        self.ring.peek(offset, data)
    }

    /// Gives up to `n` ready bytes back to the writing end and returns how many bytes that was.
    pub fn advance(&mut self, n: usize) -> (moved: usize)
        requires
            old(self).wf(),
        ensures
            final(self).wf(),
            moved == min_nat(old(self)@.ready.len(), n as nat),
            final(self)@ == old(self)@.consume(moved as nat),
            moved <= n,
            moved < n ==> final(self)@.ready.len() == 0,
            final(self)@.ready == old(self)@.ready.skip(moved as int),
            *final(final(self).ring) == *final(old(self).ring),
    {
        let available: usize = self.ring.read_available();
        let moved: usize = if available < n {
            available
        } else {
            n
        };
        self.ring.consume(moved);
        moved
    }
}

/// A ring is a queue: bytes that were written are read after those that were there before, in the
/// order in which they were written, as far as there was room for them.
pub proof fn law_first_in_first_out(ring: RingView, data: Seq<u8>)
    ensures
        ring.append(data).ready.take(ring.ready.len() as int) == ring.ready,
        ring.append(data).consume(ring.ready.len()).ready == data.take(
            min_nat(ring.free.len(), data.len()) as int,
        ),
{
    let n = min_nat(ring.free.len(), data.len()) as int;
    assert(ring.append(data).ready.take(ring.ready.len() as int) =~= ring.ready);
    assert(ring.append(data).consume(ring.ready.len()).ready =~= data.take(n));
}

/// Storing bytes right after the ready ones and making them ready is the same as writing them.
pub proof fn law_store_and_commit(ring: RingView, data: Seq<u8>)
    ensures
        ring.store(0, data).commit(min_nat(ring.free.len(), data.len())) == ring.append(data),
{
    let n = min_nat(ring.free.len(), data.len());
    if n > 0 || ring.free.len() > 0 {
        assert(fitting(ring.free.len(), 0, data.len()) == n);
    }
    assert(ring.store(0, data).commit(n) =~= ring.append(data));
}

/// No operation changes the number of cells.
pub proof fn law_capacity_stays(ring: RingView, offset: nat, data: Seq<u8>, n: nat, m: nat)
    requires
        n <= ring.free.len(),
        m <= ring.ready.len(),
    ensures
        ring.store(offset, data).capacity() == ring.capacity(),
        ring.commit(n).capacity() == ring.capacity(),
        ring.append(data).capacity() == ring.capacity(),
        ring.consume(m).capacity() == ring.capacity(),
{
}

} // verus!
