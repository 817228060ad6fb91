//! Packet buffers and the pools they come from.

use vstd::prelude::*;

use crate::ring_buffer::overlay;
use crate::spsc::Condition;

verus! {

/// The maximum usable packet size.
///
/// It is not useful for an implementation of `PacketPool` to return packets with larger capacity
/// than this, the entire packet capacity may not be usable otherwise.
pub const MAX_PACKET_LEN: u16 = 32768;

/// `bytes` cut down or filled up with `val` to the length `len`.
pub open spec fn resized(bytes: Seq<u8>, len: nat, val: u8) -> Seq<u8> {
    Seq::new(
        len,
        |i: int|
            if i < bytes.len() {
                bytes[i]
            } else {
                val
            },
    )
}

/// Resizing keeps the bytes that are not cut off, and fills up with nothing but `val`.
pub proof fn law_resize_keeps_bytes(bytes: Seq<u8>, len: nat, val: u8)
    ensures
        resized(bytes, len, val).len() == len,
        len <= bytes.len() ==> resized(bytes, len, val) == bytes.take(len as int),
        len >= bytes.len() ==> resized(bytes, len, val).take(bytes.len() as int) == bytes,
        forall|i: int|
            bytes.len() <= i < len ==> #[trigger] resized(bytes, len, val)[i] == val,
{
    if len <= bytes.len() {
        assert(resized(bytes, len, val) =~= bytes.take(len as int));
    } else {
        assert(resized(bytes, len, val).take(bytes.len() as int) =~= bytes);
    }
}

/// A trait for packet buffers.
pub trait Packet: Sized {
    /// The bytes of the packet.
    spec fn view(&self) -> Seq<u8>;

    /// The largest number of bytes that the packet can hold.
    spec fn limit(&self) -> nat;

    spec fn wf(&self) -> bool;

    /// A well-formed packet is no longer than its capacity.
    proof fn lemma_limit(&self)
        requires
            self.wf(),
        ensures
            self.view().len() <= self.limit() <= usize::MAX,
    ;

    /// Static capacity of this packet.
    fn capacity(&self) -> (capacity: usize)
        requires
            self.wf(),
        ensures
            capacity == self.limit(),
    ;

    /// The bytes of the packet.
    fn as_slice(&self) -> (bytes: &[u8])
        requires
            self.wf(),
        ensures
            bytes@ == self.view(),
    ;

    /// The bytes of the packet, to be changed in place.
    fn as_mut_slice(&mut self) -> (bytes: &mut [u8])
        requires
            old(self).wf(),
        ensures
            bytes@ == old(self).view(),
            final(bytes)@.len() == bytes@.len() ==> {
                &&& final(self).wf()
                &&& final(self).view() == final(bytes)@
                &&& final(self).limit() == old(self).limit()
            },
    ;

    /// Resizes the packet to the given length, which must be at most the static capacity.
    fn resize(&mut self, len: usize, val: u8)
        requires
            old(self).wf(),
            len <= old(self).limit(),
        ensures
            final(self).wf(),
            final(self).limit() == old(self).limit(),
            final(self).view() == resized(old(self).view(), len as nat, val),
    ;

    /// Appends `other`.
    fn extend(&mut self, other: &[u8])
        requires
            old(self).wf(),
            old(self).view().len() + other@.len() <= old(self).limit(),
        ensures
            final(self).wf(),
            final(self).limit() == old(self).limit(),
            final(self).view() == old(self).view() + other@,
    {
        proof {
            self.lemma_limit();
        }
        let cur_len: usize = self.as_slice().len();
        let new_len: usize = cur_len + other.len();
        self.resize(new_len, 0);
        let bytes: &mut [u8] = self.as_mut_slice();
        copy_to(bytes, cur_len, other);
        assert(self.view() =~= old(self).view() + other@);
    }

    /// Shortens the packet to at most `len` bytes.
    fn truncate(&mut self, len: usize)
        requires
            old(self).wf(),
        ensures
            final(self).wf(),
            final(self).limit() == old(self).limit(),
            final(self).view() == (if len < old(self).view().len() {
                old(self).view().take(len as int)
            } else {
                old(self).view()
            }),
    {
        proof {
            self.lemma_limit();
        }
        let cur_len: usize = self.as_slice().len();
        let len: usize = if len < cur_len {
            len
        } else {
            cur_len
        };
        self.resize(len, 0);
        assert(self.view() =~= old(self).view().take(len as int));
    }

    /// Removes all bytes.
    fn clear(&mut self)
        requires
            old(self).wf(),
        ensures
            final(self).wf(),
            final(self).limit() == old(self).limit(),
            final(self).view() == Seq::<u8>::empty(),
    {
        self.resize(0, 0);
        assert(self.view() =~= Seq::<u8>::empty());
    }
}

/// Copies `src` over the bytes of `dst` from index `at` on.
pub fn copy_to(dst: &mut [u8], at: usize, src: &[u8])
    requires
        at + src@.len() <= old(dst)@.len(),
    ensures
        final(dst)@ == overlay(old(dst)@, at as int, src@),
{
    let mut i: usize = 0;
    while i < src.len()
        invariant
            i <= src.len(),
            at + src.len() <= dst.len(),
            dst@ == overlay(old(dst)@, at as int, src@.take(i as int)),
        decreases src.len() - i,
    {
        dst[at + i] = src[i];
        i = i + 1;
        assert(dst@ =~= overlay(old(dst)@, at as int, src@.take(i as int)));
    }
    assert(src@.take(i as int) =~= src@);
}

/// Trait for packet allocation and pooling.
///
/// All packets are allocated through this interface.
///
/// Packets must implement the `Packet` trait and all have the same capacity: the MTU for whatever
/// the underlying transport is, up to `MAX_PACKET_LEN` in size.
pub trait PacketPool: Sized {
    type Packet: Packet;

    /// The capacity of the packets of this pool.
    spec fn limit(&self) -> nat;

    spec fn wf(&self) -> bool;

    /// Static maximum capacity of the packets returned by this pool.
    fn capacity(&self) -> (capacity: usize)
        requires
            self.wf(),
        ensures
            capacity == self.limit(),
    ;

    /// Allocates an empty packet.
    fn acquire(&mut self) -> (packet: Self::Packet)
        requires
            old(self).wf(),
        ensures
            final(self).wf(),
            final(self).limit() == old(self).limit(),
            packet.wf(),
            packet.view() == Seq::<u8>::empty(),
            packet.limit() == old(self).limit(),
    ;
}

/// What is asked of the packets in a queue: each one is well formed.
#[derive(Debug, Clone, Copy)]
pub struct WellFormed;

impl<P: Packet> Condition<P> for WellFormed {
    open spec fn met(item: P) -> bool {
        item.wf()
    }
}

} // verus!
