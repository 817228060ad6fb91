//! Packets that occupy the first bytes of pooled buffers.

use vstd::prelude::*;

use crate::buffer::{Buffer, SimpleBufferPool};
use crate::packet::copy_to;
use crate::ring_buffer::{min_nat, overlay};

verus! {

/// Trait for packet buffer allocation and pooling.
///
/// All packet buffers that are allocated from `turbulence` are allocated through this interface.
/// The buffers of a pool must all have the same length.
pub trait BufferPool: Sized {
    type Buffer: Buffer;

    /// The length of the buffers of this pool.
    spec fn limit(&self) -> nat;

    fn acquire(&self) -> (buffer: Self::Buffer)
        ensures
            buffer.bytes().len() == self.limit() <= usize::MAX,
    ;
}

impl BufferPool for SimpleBufferPool {
    type Buffer = Vec<u8>;

    open spec fn limit(&self) -> nat {
        self.0 as nat
    }

    fn acquire(&self) -> (buffer: Vec<u8>)
        ensures
            buffer@ == Seq::new(self.0 as nat, |i: int| 0u8),
    {
        let buffer: Vec<u8> = vec![0;self.0];
        assert(buffer@ =~= Seq::new(self.0 as nat, |i: int| 0u8));
        buffer
    }
}

#[derive(Clone, Debug, Default)]
pub struct PacketPool<B>(B);

impl<B: BufferPool> PacketPool<B> {
    /// The wrapped pool.
    pub closed spec fn inner(&self) -> B {
        self.0
    }

    pub fn new(buffer_pool: B) -> (pool: Self)
        ensures
            pool.inner() == buffer_pool,
    {
        PacketPool(buffer_pool)
    }

    /// An empty packet in a buffer of the wrapped pool.
    pub fn acquire(&self) -> (packet: Packet<B::Buffer>)
        ensures
            packet.wf(),
            packet.view() == Seq::<u8>::empty(),
            packet.len() == 0,
            packet.bytes().len() == self.inner().limit(),
            exists|buffer: B::Buffer| #[trigger]
                call_ensures(B::acquire, (&self.inner(),), buffer) && packet.bytes()
                    == buffer.bytes(),
    {
        let packet = Packet { buffer: self.0.acquire(), len: 0 };
        assert(packet.view() =~= Seq::<u8>::empty());
        assert(call_ensures(B::acquire, (&self.inner(),), packet.buffer));
        packet
    }
}

#[derive(Debug)]
pub struct Packet<B> {
    buffer: B,
    len: usize,
}

impl<B: Buffer> Packet<B> {
    /// The bytes of the buffer, those of the packet first.
    pub closed spec fn bytes(&self) -> Seq<u8> {
        self.buffer.bytes()
    }

    /// The length of the packet.
    pub closed spec fn len(&self) -> nat {
        self.len as nat
    }

    /// The bytes of the packet.
    pub open spec fn view(&self) -> Seq<u8> {
        self.bytes().take(self.len() as int)
    }

    pub closed spec fn wf(&self) -> bool {
        self.len <= self.buffer.bytes().len() <= usize::MAX
    }

    /// A well-formed packet is no longer than its buffer.
    pub proof fn lemma_len(&self)
        requires
            self.wf(),
        ensures
            self.len() <= self.bytes().len() <= usize::MAX,
    {
    }

    /// Static capacity of this packet
    pub fn capacity(&self) -> (capacity: usize)
        requires
            self.wf(),
        ensures
            capacity == self.bytes().len(),
    {
        self.buffer.as_slice().len()
    }

    pub fn clear(&mut self)
        requires
            old(self).wf(),
        ensures
            final(self).wf(),
            final(self).bytes() == old(self).bytes(),
            final(self).len() == 0,
    {
        self.len = 0;
    }

    /// Resizes the buffer to the given length, which must not be larger than the static buffer
    /// capacity.
    pub fn resize(&mut self, len: usize, val: u8)
        requires
            old(self).wf(),
            len <= old(self).bytes().len(),
        ensures
            final(self).wf(),
            final(self).len() == len,
            final(self).bytes() == Seq::new(
                old(self).bytes().len(),
                |i: int|
                    if old(self).len() <= i < len {
                        val
                    } else {
                        old(self).bytes()[i]
                    },
            ),
    {
        let mut i: usize = self.len;
        while i < len
            invariant
                self.len == old(self).len,
                self.len <= i,
                i <= len || i == self.len,
                len <= self.buffer.bytes().len() == old(self).buffer.bytes().len(),
                forall|k: int|
                    0 <= k < self.buffer.bytes().len() ==> #[trigger] self.buffer.bytes()[k] == (
                    if self.len <= k < i {
                        val
                    } else {
                        old(self).buffer.bytes()[k]
                    }),
            decreases len - i,
        {
            self.buffer.as_mut_slice()[i] = val;
            i = i + 1;
        }
        self.len = len;
        assert(self.bytes() =~= Seq::new(
            old(self).bytes().len(),
            |i: int|
                if old(self).len() <= i < len {
                    val
                } else {
                    old(self).bytes()[i]
                },
        ));
    }

    pub fn truncate(&mut self, len: usize)
        requires
            old(self).wf(),
        ensures
            final(self).wf(),
            final(self).bytes() == old(self).bytes(),
            final(self).len() == min_nat(old(self).len(), len as nat),
            len < old(self).len() ==> final(self).len() == len,
            len >= old(self).len() ==> final(self).len() == old(self).len(),
    {
        if len < self.len {
            self.len = len;
        }
    }

    /// Copies the given bytes behind those of the packet. The length of the packet stays.
    pub fn extend(&mut self, other: &[u8])
        requires
            old(self).wf(),
            old(self).len() + other@.len() <= old(self).bytes().len(),
        ensures
            final(self).wf(),
            final(self).len() == old(self).len(),
            final(self).bytes() == overlay(old(self).bytes(), old(self).len() as int, other@),
    {
        copy_to(self.buffer.as_mut_slice(), self.len, other);
    }

    /// All bytes of the buffer.
    pub fn as_slice(&self) -> (bytes: &[u8])
        requires
            self.wf(),
        ensures
            bytes@ == self.bytes(),
    {
        self.buffer.as_slice()
    }

    /// All bytes of the buffer, to be changed in place.
    pub fn as_mut_slice(&mut self) -> (bytes: &mut [u8])
        requires
            old(self).wf(),
        ensures
            bytes@ == old(self).bytes(),
            final(self).bytes() == final(bytes)@,
            final(self).len() == old(self).len(),
            final(bytes)@.len() == bytes@.len() ==> final(self).wf(),
    {
        self.buffer.as_mut_slice()
    }

    /// The bytes of the packet.
    pub fn contents(&self) -> (bytes: &[u8])
        requires
            self.wf(),
        ensures
            bytes@ == self.view(),
    {
        vstd::slice::slice_subrange(self.buffer.as_slice(), 0, self.len)
    }
}

} // verus!
