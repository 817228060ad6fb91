//! Packets backed by fixed size byte buffers.

use vstd::prelude::*;

use crate::packet::{resized, Packet, PacketPool};

verus! {

/// A byte buffer whose length never changes.
pub trait Buffer: Sized {
    /// The bytes of the buffer.
    spec fn bytes(&self) -> Seq<u8>;

    /// The bytes of the buffer.
    fn as_slice(&self) -> (bytes: &[u8])
        ensures
            bytes@ == self.bytes(),
    ;

    /// The bytes of the buffer, to be changed in place.
    fn as_mut_slice(&mut self) -> (bytes: &mut [u8])
        ensures
            bytes@ == old(self).bytes(),
            final(self).bytes() == final(bytes)@,
    ;
}

impl Buffer for Vec<u8> {
    open spec fn bytes(&self) -> Seq<u8> {
        self@
    }

    fn as_slice(&self) -> (bytes: &[u8]) {
        self.as_slice()
    }

    fn as_mut_slice(&mut self) -> (bytes: &mut [u8]) {
        self.as_mut_slice()
    }
}

/// A trait for implementing `PacketPool` more easily using an allocator for statically sized
/// buffers.
pub trait BufferPool: Sized {
    type Buffer: Buffer;

    /// The length of the buffers of this pool.
    spec fn limit(&self) -> nat;

    /// The length of the buffers of this pool.
    fn capacity(&self) -> (capacity: usize)
        ensures
            capacity == self.limit(),
    ;

    /// Allocates a buffer.
    fn acquire(&mut self) -> (buffer: Self::Buffer)
        ensures
            final(self).limit() == old(self).limit(),
            buffer.bytes().len() == old(self).limit() <= usize::MAX,
    ;
}

/// A buffer pool that allocates a fresh zeroed buffer of the given length each time.
#[derive(Debug, Copy, Clone)]
pub struct SimpleBufferPool(pub usize);

impl BufferPool for SimpleBufferPool {
    type Buffer = Vec<u8>;

    open spec fn limit(&self) -> nat {
        self.0 as nat
    }

    fn capacity(&self) -> (capacity: usize) {
        self.0
    }

    fn acquire(&mut self) -> (buffer: Vec<u8>)
        ensures
            *final(self) == *old(self),
            buffer@ == Seq::new(old(self).0 as nat, |i: int| 0u8),
    {
        let buffer: Vec<u8> = vec![0;self.0];
        assert(buffer@ =~= Seq::new(self.0 as nat, |i: int| 0u8));
        buffer
    }
}

/// Turns a `BufferPool` implementation into something that implements `PacketPool`.
#[derive(Debug, Copy, Default)]
pub struct BufferPacketPool<B>(B);

impl<B: Clone> Clone for BufferPacketPool<B> {
    fn clone(&self) -> (pool: Self)
        ensures
            cloned(self.inner(), pool.inner()),
    {
        BufferPacketPool(self.0.clone())
    }
}

impl<B> BufferPacketPool<B> {
    /// The wrapped pool.
    pub closed spec fn inner(&self) -> B {
        self.0
    }

    pub fn new(buffer_pool: B) -> (pool: Self)
        ensures
            pool.inner() == buffer_pool,
    {
        BufferPacketPool(buffer_pool)
    }
}

impl<B: BufferPool> PacketPool for BufferPacketPool<B> {
    type Packet = BufferPacket<B::Buffer>;

    open spec fn limit(&self) -> nat {
        self.inner().limit()
    }

    open spec fn wf(&self) -> bool {
        true
    }

    fn capacity(&self) -> (capacity: usize) {
        self.0.capacity()
    }

    fn acquire(&mut self) -> (packet: BufferPacket<B::Buffer>) {
        let packet = BufferPacket { buffer: self.0.acquire(), len: 0 };
        assert(packet.view() =~= Seq::<u8>::empty());
        packet
    }
}

/// A packet that occupies the first bytes of a buffer.
#[derive(Debug)]
pub struct BufferPacket<B> {
    buffer: B,
    len: usize,
}

impl<B: Buffer> Packet for BufferPacket<B> {
    closed spec fn view(&self) -> Seq<u8> {
        self.buffer.bytes().take(self.len as int)
    }

    closed spec fn limit(&self) -> nat {
        self.buffer.bytes().len()
    }

    closed spec fn wf(&self) -> bool {
        self.len <= self.buffer.bytes().len() <= usize::MAX
    }

    proof fn lemma_limit(&self) {
    }

    fn capacity(&self) -> (capacity: usize) {
        self.buffer.as_slice().len()
    }

    fn as_slice(&self) -> (bytes: &[u8]) {
        vstd::slice::slice_subrange(self.buffer.as_slice(), 0, self.len)
    }

    fn as_mut_slice(&mut self) -> (bytes: &mut [u8]) {
        let (bytes, rest) = self.buffer.as_mut_slice().split_at_mut(self.len);
        assert(final(bytes)@.len() == bytes@.len() ==> (final(bytes)@ + final(rest)@).take(
            bytes@.len() as int,
        ) =~= final(bytes)@);
        bytes
    }

    fn resize(&mut self, len: usize, val: u8) {
        let mut i: usize = self.len;
        while i < len
            invariant
                self.len == old(self).len,
                self.len <= i,
                len <= self.buffer.bytes().len() == old(self).buffer.bytes().len(),
                i <= len || i == self.len,
                forall|k: int| 0 <= k < self.len ==> self.buffer.bytes()[k] == old(
                    self,
                ).buffer.bytes()[k],
                forall|k: int| self.len <= k < i ==> self.buffer.bytes()[k] == val,
            decreases len - i,
        {
            self.buffer.as_mut_slice()[i] = val;
            i = i + 1;
        }
        self.len = len;
        assert(self.view() =~= resized(old(self).view(), len as nat, val));
    }
}

} // verus!
