//! Many packet channels over one stream of packets.
//!
//! The first byte of a packet tells the channel that it belongs to.

use rustc_hash::{FxHashMap, FxHashSet};
use std::collections::HashSet;
use vstd::prelude::*;
use vstd::std_specs::convert::FromSpec;

use crate::packet::{resized, Packet, PacketPool, WellFormed};
use crate::spsc::{self, Queue, Receiver, Sender, TryRecvError, TrySendError};

verus! {

pub type PacketChannel = u8;

/// A wrapper over a `Packet` that reserves the first byte for the channel.
#[derive(Debug)]
pub struct MuxPacket<P>(P);

/// The packet that wraps `packet`.
pub closed spec fn mux<P>(packet: P) -> MuxPacket<P> {
    MuxPacket(packet)
}

impl<P> MuxPacket<P> {
    /// The wrapped packet.
    pub closed spec fn inner(&self) -> P {
        self.0
    }
}

impl<P: Packet> MuxPacket<P> {
    /// The reserved first byte.
    pub open spec fn reserved(&self) -> u8 {
        self.inner().view()[0]
    }
}

impl<P: Packet> Packet for MuxPacket<P> {
    open spec fn view(&self) -> Seq<u8> {
        self.inner().view().skip(1)
    }

    open spec fn limit(&self) -> nat {
        (self.inner().limit() - 1) as nat
    }

    open spec fn wf(&self) -> bool {
        &&& self.inner().wf()
        &&& self.inner().view().len() >= 1
    }

    proof fn lemma_limit(&self) {
        self.0.lemma_limit();
    }

    fn capacity(&self) -> (capacity: usize) {
        proof {
            self.0.lemma_limit();
        }
        self.0.capacity() - 1
    }

    fn as_slice(&self) -> (bytes: &[u8]) {
        let bytes = self.0.as_slice();
        vstd::slice::slice_subrange(bytes, 1, bytes.len())
    }

    fn as_mut_slice(&mut self) -> (bytes: &mut [u8])
        ensures
            final(bytes)@.len() == bytes@.len() ==> final(self).reserved() == old(self).reserved(),
    {
        let (first, bytes) = self.0.as_mut_slice().split_at_mut(1);
        assert(final(first)@.len() == first@.len() ==> (final(first)@ + final(bytes)@).skip(1)
            =~= final(bytes)@);
        bytes
    }

    fn resize(&mut self, len: usize, val: u8)
        ensures
            final(self).reserved() == old(self).reserved(),
    {
        proof {
            self.0.lemma_limit();
        }
        self.0.resize(len + 1, val);
        assert(self.view() =~= resized(old(self).view(), len as nat, val));
    }
}

/// One byte is reserved in front of the packet, so its bytes are those behind it, and it has room for one
/// less.
pub proof fn law_one_byte_is_reserved<P: Packet>(packet: MuxPacket<P>)
    requires
        packet.wf(),
    ensures
        packet.inner().view() == seq![packet.reserved()] + packet.view(),
        packet.view().len() == packet.inner().view().len() - 1,
        packet.limit() == packet.inner().limit() - 1,
{
    packet.lemma_limit();
    packet.inner().lemma_limit();
    assert(packet.inner().view() =~= seq![packet.reserved()] + packet.view());
}

#[derive(Debug)]
pub struct MuxPacketPool<P>(P);

impl<P: Clone> Clone for MuxPacketPool<P> {
    fn clone(&self) -> (pool: Self)
        ensures
            cloned(self.inner(), pool.inner()),
    {
        MuxPacketPool(self.0.clone())
    }
}

impl<P> MuxPacketPool<P> {
    /// The wrapped pool.
    pub closed spec fn inner(&self) -> P {
        self.0
    }

    pub fn new(packet_pool: P) -> (pool: Self)
        ensures
            pool.inner() == packet_pool,
    {
        MuxPacketPool(packet_pool)
    }
}

impl<P> From<P> for MuxPacketPool<P> {
    fn from(pool: P) -> (result: MuxPacketPool<P>) {
        MuxPacketPool(pool)
    }
}

impl<P> vstd::std_specs::convert::FromSpecImpl<P> for MuxPacketPool<P> {
    open spec fn obeys_from_spec() -> bool {
        true
    }

    closed spec fn from_spec(pool: P) -> MuxPacketPool<P> {
        MuxPacketPool(pool)
    }
}

/// A pool that is converted is wrapped as it is.
pub proof fn law_from_wraps<P>(pool: P)
    ensures
        <MuxPacketPool<P> as FromSpec<P>>::from_spec(pool).inner() == pool,
{
}

impl<P: PacketPool> PacketPool for MuxPacketPool<P> {
    type Packet = MuxPacket<P::Packet>;

    open spec fn limit(&self) -> nat {
        (self.inner().limit() - 1) as nat
    }

    open spec fn wf(&self) -> bool {
        &&& self.inner().wf()
        &&& self.inner().limit() >= 1
    }

    fn capacity(&self) -> (capacity: usize) {
        self.0.capacity() - 1
    }

    fn acquire(&mut self) -> (packet: MuxPacket<P::Packet>)
        ensures
            packet.inner().view() == seq![0u8],
    {
        let mut packet = self.0.acquire();
        packet.resize(1, 0);
        let packet = MuxPacket(packet);
        assert(packet.view() =~= Seq::<u8>::empty());
        packet
    }
}

/// Packet channel has already been opened.
#[derive(Debug, Clone, Copy, PartialEq, Eq, Structural)]
pub struct DuplicateChannel;

#[derive(Debug, Clone, Copy, PartialEq, Eq, Structural)]
pub struct ChannelTotals {
    pub packets: u64,
    pub bytes: u64,
}

impl ChannelTotals {
    pub open spec fn zero() -> ChannelTotals {
        ChannelTotals { packets: 0, bytes: 0 }
    }

    /// The totals after one more packet of `len` bytes. They wrap around.
    pub open spec fn marked(self, len: nat) -> ChannelTotals {
        ChannelTotals {
            packets: ((self.packets + 1) % 0x1_0000_0000_0000_0000) as u64,
            bytes: ((self.bytes + len) % 0x1_0000_0000_0000_0000) as u64,
        }
    }

    fn mark_packet(&mut self, len: usize)
        ensures
            *final(self) == old(self).marked(len as nat),
    {
        self.packets = self.packets.wrapping_add(1);
        self.bytes = self.bytes.wrapping_add(len as u64);
    }
}

/// The packets and bytes that one channel has carried.
#[derive(Debug, Clone, Copy, PartialEq, Eq, Structural)]
pub struct ChannelStatistics {
    incoming: ChannelTotals,
    outgoing: ChannelTotals,
}

impl ChannelStatistics {
    pub closed spec fn incoming(&self) -> ChannelTotals {
        self.incoming
    }

    pub closed spec fn outgoing(&self) -> ChannelTotals {
        self.outgoing
    }

    pub fn new(incoming: ChannelTotals, outgoing: ChannelTotals) -> (statistics: Self)
        ensures
            statistics.incoming() == incoming,
            statistics.outgoing() == outgoing,
    {
        ChannelStatistics { incoming, outgoing }
    }

    pub fn incoming_totals(&self) -> (totals: ChannelTotals)
        ensures
            totals == self.incoming(),
    {
        self.incoming
    }

    pub fn outgoing_totals(&self) -> (totals: ChannelTotals)
        ensures
            totals == self.outgoing(),
    {
        self.outgoing
    }
}

/// Where the packets that arrive for one channel go.
#[verifier::reject_recursive_types(P)]
struct ChannelSender<P: Packet> {
    channel: PacketChannel,
    sender: Sender<MuxPacket<P>, WellFormed>,
    totals: ChannelTotals,
}

/// Where the packets that one channel sends come from.
#[verifier::reject_recursive_types(P)]
pub struct ChannelReceiver<P: Packet> {
    channel: PacketChannel,
    receiver: Receiver<MuxPacket<P>, WellFormed>,
    totals: ChannelTotals,
}

impl<P: Packet> ChannelReceiver<P> {
    pub closed spec fn channel(&self) -> PacketChannel {
        self.channel
    }

    pub closed spec fn totals(&self) -> ChannelTotals {
        self.totals
    }

    /// The queue that the packets are taken from.
    pub closed spec fn queue(&self) -> Queue {
        self.receiver.queue()
    }

    /// What the queue answered each time that a packet was asked for.
    pub closed spec fn answers(&self) -> Seq<Result<MuxPacket<P>, TryRecvError>> {
        self.receiver.answers()
    }

    /// The packets that came out of the queue, oldest first.
    pub open spec fn received(&self) -> Seq<MuxPacket<P>> {
        spsc::items_in(self.answers())
    }

    /// The channel whose packets these are.
    pub fn packet_channel(&self) -> (channel: PacketChannel)
        ensures
            channel == self.channel(),
    {
        self.channel
    }

    /// The packets that the channel has sent.
    pub fn outgoing_totals(&self) -> (totals: ChannelTotals)
        ensures
            totals == self.totals(),
    {
        self.totals
    }

    /// Marks a packet of this channel for transmission.
    pub fn mark_outgoing(&mut self, packet: MuxPacket<P>) -> (result: P)
        requires
            packet.wf(),
        ensures
            final(self).channel() == old(self).channel(),
            final(self).queue() == old(self).queue(),
            final(self).answers() == old(self).answers(),
            final(self).totals() == old(self).totals().marked(packet.view().len()),
            result.wf(),
            result.limit() == packet.inner().limit(),
            result.view() == seq![old(self).channel()] + packet.view(),
            // The byte that tells the channel is transmitted, and not counted.
            result.view().len() == packet.view().len() + 1,
            final(self).totals().packets == (old(self).totals().packets + 1)
                % 0x1_0000_0000_0000_0000,
            final(self).totals().bytes == (old(self).totals().bytes + result.view().len() - 1)
                % 0x1_0000_0000_0000_0000,
    {
        let mut inner = packet.0;
        proof {
            inner.lemma_limit();
        }
        let len: usize = inner.as_slice().len();
        inner.as_mut_slice()[0] = self.channel;
        self.totals.mark_packet(len - 1);
        assert(inner.view() =~= seq![self.channel] + packet.view());
        inner
    }

    /// Takes the next packet that the channel has sent, and marks it for transmission.
    ///
    /// Which packet that is, and whether there is one, depends on what the channel has sent.
    pub fn try_recv(&mut self) -> (result: Result<P, TryRecvError>)
        ensures
            final(self).channel() == old(self).channel(),
            final(self).queue() == old(self).queue(),
            ({
                let answer = final(self).answers().last();
                &&& final(self).answers() == old(self).answers().push(answer)
                &&& match answer {
                    Ok(sent) => {
                        &&& result matches Ok(packet) && packet.wf() && packet.limit()
                            == sent.inner().limit() && packet.view() == seq![old(self).channel()]
                            + sent.view()
                        &&& final(self).totals() == old(self).totals().marked(sent.view().len())
                    },
                    Err(error) => {
                        &&& result == Err::<P, TryRecvError>(error)
                        &&& final(self).totals() == old(self).totals()
                    },
                }
            }),
            result is Err ==> final(self).totals() == old(self).totals(),
            result matches Ok(packet) ==> {
                &&& packet.view().len() >= 1
                &&& packet.view()[0] == old(self).channel()
                &&& final(self).totals().packets == (old(self).totals().packets + 1)
                    % 0x1_0000_0000_0000_0000
                &&& final(self).totals().bytes == (old(self).totals().bytes + packet.view().len()
                    - 1) % 0x1_0000_0000_0000_0000
            },
    {
        match self.receiver.try_recv() {
            Ok(packet) => Ok(self.mark_outgoing(packet)),
            Err(error) => Err(error),
        }
    }
}

/// `rustc_hash::FxHasher`, the hasher of an `FxHashMap` and an `FxHashSet`.
#[verifier::external_type_specification]
#[verifier::external_body]
pub struct ExFxHasher(rustc_hash::FxHasher);

/// `std::hash::BuildHasherDefault`, which makes the hashers of an `FxHashMap` and an `FxHashSet`.
#[verifier::external_type_specification]
#[verifier::external_body]
#[verifier::reject_recursive_types(H)]
pub struct ExBuildHasherDefault<H>(std::hash::BuildHasherDefault<H>);

/// The channels of a multiplexer, each with the place of its queue.
type ChannelMap = FxHashMap<PacketChannel, usize>;

/// `rustc_hash::FxHashMap::default`: returns an empty map.
#[verifier::external_body]
fn new_channel_map() -> (map: ChannelMap)
    ensures
        map@.dom() == Set::<PacketChannel>::empty(),
{
    FxHashMap::default()
}

/// `rustc_hash::FxHashMap::insert`: adds a pair, in place of one with the same key.
#[verifier::external_body]
fn insert_channel(map: &mut ChannelMap, channel: PacketChannel, index: usize)
    ensures
        final(map)@ == old(map)@.insert(channel, index),
{
    map.insert(channel, index);
}

/// `rustc_hash::FxHashMap::get`: returns the value of a key.
#[verifier::external_body]
fn get_channel(map: &ChannelMap, channel: PacketChannel) -> (index: Option<usize>)
    ensures
        index == (if map@.contains_key(channel) {
            Some(map@[channel])
        } else {
            None
        }),
{
    map.get(&channel).copied()
}

/// Some channels.
type ChannelSet = FxHashSet<PacketChannel>;

/// `rustc_hash::FxHashSet::default`: returns an empty set.
#[verifier::external_body]
fn new_channel_set() -> (set: ChannelSet)
    ensures
        set@ == Set::<PacketChannel>::empty(),
{
    FxHashSet::default()
}

/// `rustc_hash::FxHashSet::insert`: adds an element.
#[verifier::external_body]
fn add_channel(set: &mut ChannelSet, channel: PacketChannel)
    ensures
        final(set)@ == old(set)@.insert(channel),
{
    set.insert(channel);
}

/// `rustc_hash::FxHashSet::remove`: removes an element.
#[verifier::external_body]
fn remove_channel(set: &mut ChannelSet, channel: PacketChannel)
    ensures
        final(set)@ == old(set)@.remove(channel),
{
    set.remove(&channel);
}

/// `rustc_hash::FxHashSet::iter`: returns the element that comes first, whichever that is.
#[verifier::external_body]
fn any_channel(set: &ChannelSet) -> (channel: Option<PacketChannel>)
    ensures
        match channel {
            Some(channel) => set@.contains(channel),
            None => set@ == Set::<PacketChannel>::empty(),
        },
{
    set.iter().next().copied()
}

/// Routes packets marked with a channel header from a single stream of packets to a set of queues
/// for each channel.
///
/// Also monitors bandwidth on each channel independently.
#[verifier::reject_recursive_types(P)]
pub struct PacketMultiplexer<P: Packet> {
    opened: HashSet<PacketChannel>,
    incoming: Vec<ChannelSender<P>>,
    outgoing: Vec<ChannelReceiver<P>>,
}

impl<P: Packet> PacketMultiplexer<P> {
    /// The channels that have been opened, in that order.
    pub closed spec fn channels(&self) -> Seq<PacketChannel> {
        Seq::new(self.outgoing@.len(), |i: int| self.outgoing@[i].channel)
    }

    /// For each opened channel, the queue that its incoming packets are put in.
    pub closed spec fn incoming_queues(&self) -> Seq<Queue> {
        Seq::new(self.incoming@.len(), |i: int| self.incoming@[i].sender.queue())
    }

    /// For each opened channel, the queue that its outgoing packets are taken from.
    pub closed spec fn outgoing_queues(&self) -> Seq<Queue> {
        Seq::new(self.outgoing@.len(), |i: int| self.outgoing@[i].queue())
    }

    pub closed spec fn wf(&self) -> bool {
        &&& self.channels().no_duplicates()
        &&& self.opened@ == self.channels().to_set()
        &&& self.incoming@.len() == self.outgoing@.len()
        &&& forall|i: int|
            #![trigger self.incoming@[i]]
            #![trigger self.outgoing@[i]]
            0 <= i < self.incoming@.len() ==> {
                &&& self.incoming@[i].channel == self.outgoing@[i].channel
                &&& self.incoming@[i].sender.taken() == Seq::<MuxPacket<P>>::empty()
                &&& self.incoming@[i].sender.answers().len() == 0
                &&& self.outgoing@[i].answers().len() == 0
                &&& self.incoming@[i].totals == ChannelTotals::zero()
                &&& self.outgoing@[i].totals == ChannelTotals::zero()
            }
    }

    pub fn new() -> (multiplexer: Self)
        ensures
            multiplexer.wf(),
            multiplexer.channels() == Seq::<PacketChannel>::empty(),
            multiplexer.incoming_queues() == Seq::<Queue>::empty(),
            multiplexer.outgoing_queues() == Seq::<Queue>::empty(),
    {
        let multiplexer = PacketMultiplexer {
            opened: HashSet::new(),
            incoming: Vec::new(),
            outgoing: Vec::new(),
        };
        assert(multiplexer.channels() =~= Seq::<PacketChannel>::empty());
        assert(multiplexer.opened@ =~= multiplexer.channels().to_set());
        multiplexer
    }

    /// Open a multiplexed packet channel, producing a sender for outgoing `MuxPacket`s on this
    /// channel, and a receiver for incoming `MuxPacket`s on this channel.
    ///
    /// The `buffer_size` parameter controls the buffer size requested when creating the spsc
    /// channels for the returned `Sender` and `Receiver`.
    pub fn open_channel(&mut self, channel: PacketChannel, buffer_size: usize) -> (result: Result<
        (Sender<MuxPacket<P>, WellFormed>, Receiver<MuxPacket<P>, WellFormed>),
        DuplicateChannel,
    >)
        requires
            old(self).wf(),
            buffer_size <= usize::MAX / 4,
        ensures
            final(self).wf(),
            match result {
                Ok((sender, receiver)) => {
                    &&& !old(self).channels().contains(channel)
                    &&& final(self).channels() == old(self).channels().push(channel)
                    &&& final(self).outgoing_queues() == old(self).outgoing_queues().push(
                        sender.queue(),
                    )
                    &&& final(self).incoming_queues() == old(self).incoming_queues().push(
                        receiver.queue(),
                    )
                    &&& sender.capacity() == buffer_size
                    &&& receiver.capacity() == buffer_size
                    &&& sender.taken() == Seq::<MuxPacket<P>>::empty()
                    &&& sender.answers().len() == 0
                    &&& receiver.answers().len() == 0
                },
                Err(_) => {
                    &&& old(self).channels().contains(channel)
                    &&& *final(self) == *old(self)
                },
            },
    {
        broadcast use vstd::std_specs::hash::group_hash_axioms;

        if self.opened.contains(&channel) {
            return Err(DuplicateChannel);
        }
        let (incoming_sender, incoming_receiver) = spsc::conditional_channel(buffer_size);
        let (outgoing_sender, outgoing_receiver) = spsc::conditional_channel(buffer_size);
        let totals = ChannelTotals { packets: 0, bytes: 0 };
        self.opened.insert(channel);
        self.incoming.push(ChannelSender { channel, sender: incoming_sender, totals });
        self.outgoing.push(ChannelReceiver { channel, receiver: outgoing_receiver, totals });
        assert(self.channels() =~= old(self).channels().push(channel));
        assert(self.opened@ =~= self.channels().to_set()) by {
            assert forall|c: PacketChannel| self.channels().contains(c) == (old(
                self,
            ).channels().contains(c) || c == channel) by {
                let n = old(self).channels().len() as int;
                assert(self.channels()[n] == channel);
                if old(self).channels().contains(c) {
                    let i = choose|i: int|
                        0 <= i < old(self).channels().len() && old(self).channels()[i] == c;
                    assert(self.channels()[i] == c);
                }
            }
        }
        Ok((outgoing_sender, incoming_receiver))
    }

    /// Start multiplexing packets to all opened channels.
    ///
    /// Returns an `IncomingMultiplexedPackets` which takes incoming packets, and an
    /// `OutgoingMultiplexedPackets` which holds the sources of outgoing packets.
    pub fn start(self) -> (result: (IncomingMultiplexedPackets<P>, OutgoingMultiplexedPackets<P>))
        requires
            self.wf(),
        ensures
            result.0.wf(),
            result.0.channels() == self.channels().to_set(),
            result.0.to_send() is None,
            result.0.to_flush() == Set::<PacketChannel>::empty(),
            forall|c: PacketChannel| #[trigger]
                result.0.channels().contains(c) ==> {
                    &&& result.0.sender(c).taken() == Seq::<MuxPacket<P>>::empty()
                    &&& result.0.sender(c).answers().len() == 0
                    &&& result.0.totals(c) == ChannelTotals::zero()
                },
            self.incoming_queues().len() == self.channels().len(),
            self.outgoing_queues().len() == self.channels().len(),
            forall|i: int|
                #![trigger self.channels()[i]]
                0 <= i < self.channels().len() ==> result.0.sender(self.channels()[i]).queue()
                    == self.incoming_queues()[i],
            result.1.outgoing@.len() == self.channels().len(),
            forall|i: int|
                #![trigger result.1.outgoing@[i]]
                0 <= i < self.channels().len() ==> {
                    &&& result.1.outgoing@[i].channel() == self.channels()[i]
                    &&& result.1.outgoing@[i].queue() == self.outgoing_queues()[i]
                    &&& result.1.outgoing@[i].answers().len() == 0
                    &&& result.1.outgoing@[i].totals() == ChannelTotals::zero()
                },
    {
        let mut index = new_channel_map();
        let mut i: usize = 0;
        while i < self.incoming.len()
            invariant
                self.wf(),
                i <= self.incoming.len(),
                forall|c: PacketChannel| #[trigger]
                    index@.contains_key(c) <==> self.channels().take(
                        i as int,
                    ).contains(c),
                forall|c: PacketChannel| #[trigger]
                    index@.contains_key(c) ==> index@[c] < i
                        && self.incoming@[index@[c] as int].channel == c,
            decreases self.incoming.len() - i,
        {
            let ghost before = self.channels().take(i as int);
            let ghost old_map = index@;
            insert_channel(&mut index, self.incoming[i].channel, i);
            assert(self.channels()[i as int] == self.incoming@[i as int].channel);
            assert(self.channels().take(i + 1) =~= before.push(self.channels()[i as int]));
            assert forall|c: PacketChannel| #[trigger]
                index@.contains_key(c) <==> self.channels().take(
                    i + 1,
                ).contains(c) by {
                let after = before.push(self.channels()[i as int]);
                assert(after[i as int] == self.channels()[i as int]);
                assert(old_map.contains_key(c) <==> before.contains(c));
                if before.contains(c) {
                    let k = choose|k: int| 0 <= k < before.len() && before[k] == c;
                    assert(after[k] == c);
                }
            }
            i = i + 1;
        }
        assert(self.channels().take(i as int) =~= self.channels());
        proof {
            let channels = self.channels();
            assert forall|k: int| #![trigger channels[k]] 0 <= k < channels.len() implies
                index@[channels[k]] == k by {
                assert(index@.contains_key(channels[k]));
                let at = index@[channels[k]] as int;
                assert(channels[at] == self.incoming@[at].channel);
            }
        }
        let incoming = IncomingMultiplexedPackets {
            index,
            incoming: self.incoming,
            to_send: None,
            to_flush: new_channel_set(),
        };
        assert(incoming.channels() =~= self.channels().to_set());
        (incoming, OutgoingMultiplexedPackets { outgoing: self.outgoing })
    }
}

#[derive(Debug, Clone, Copy, PartialEq, Eq, Structural)]
pub enum IncomingError {
    /// Packet received for unopened channel.
    UnknownPacketChannel,
    /// Channel receiver has been dropped.
    ChannelReceiverDropped,
}

#[derive(Debug, PartialEq, Eq)]
pub enum IncomingTrySendError<P> {
    /// Packet channel is full.
    IsFull(P),
    Error(IncomingError),
}

impl<P> IncomingTrySendError<P> {
    pub fn is_full(&self) -> (result: bool)
        ensures
            result == (self is IsFull),
    {
        match self {
            IncomingTrySendError::IsFull(_) => true,
            _ => false,
        }
    }
}

/// What the queue's answer to an incoming packet comes to.
pub open spec fn answering<P>(outcome: Result<(), TrySendError<MuxPacket<P>>>) -> Result<
    (),
    IncomingTrySendError<P>,
> {
    match outcome {
        Ok(()) => Ok(()),
        Err(TrySendError::Full(packet)) => Err(IncomingTrySendError::IsFull(packet.inner())),
        Err(TrySendError::Disconnected(_)) => Err(
            IncomingTrySendError::Error(IncomingError::ChannelReceiverDropped),
        ),
    }
}

/// Deals with the queue's answer to an incoming packet, for
/// [`IncomingMultiplexedPackets::try_send`].
pub fn answered<P>(outcome: Result<(), TrySendError<MuxPacket<P>>>) -> (result: Result<
    (),
    IncomingTrySendError<P>,
>)
    ensures
        result == answering(outcome),
{
    match outcome {
        Ok(()) => Ok(()),
        Err(TrySendError::Full(packet)) => Err(IncomingTrySendError::IsFull(packet.0)),
        Err(TrySendError::Disconnected(_)) => Err(
            IncomingTrySendError::Error(IncomingError::ChannelReceiverDropped),
        ),
    }
}

/// A handle to receive outgoing packets from the multiplexer.
#[verifier::reject_recursive_types(P)]
pub struct OutgoingMultiplexedPackets<P: Packet> {
    /// The sources of packets, one for each channel.
    pub outgoing: Vec<ChannelReceiver<P>>,
}

/// A handle to push incoming packets into the multiplexer.
#[verifier::reject_recursive_types(P)]
pub struct IncomingMultiplexedPackets<P: Packet> {
    index: ChannelMap,
    incoming: Vec<ChannelSender<P>>,
    to_send: Option<P>,
    to_flush: ChannelSet,
}

impl<P: Packet> IncomingMultiplexedPackets<P> {
    /// The channels that packets can be sent to.
    pub closed spec fn channels(&self) -> Set<PacketChannel> {
        self.index@.dom()
    }

    /// The queue of a channel.
    pub closed spec fn sender(&self, channel: PacketChannel) -> Sender<MuxPacket<P>, WellFormed> {
        self.incoming@[self.index@[channel] as int].sender
    }

    /// The packets that have arrived for a channel.
    pub closed spec fn totals(&self, channel: PacketChannel) -> ChannelTotals {
        self.incoming@[self.index@[channel] as int].totals
    }

    /// The packet that waits until there is room in the queue of its channel.
    pub closed spec fn to_send(&self) -> Option<P> {
        self.to_send
    }

    /// The channels that a packet may wait in.
    pub closed spec fn to_flush(&self) -> Set<PacketChannel> {
        self.to_flush@
    }

    pub closed spec fn wf(&self) -> bool {
        &&& forall|c: PacketChannel| #[trigger]
            self.channels().contains(c) ==> {
                &&& self.index@[c] < self.incoming@.len()
                &&& self.incoming@[self.index@[c] as int].channel == c
            }
        &&& self.to_flush().finite()
        &&& self.to_flush().subset_of(self.channels())
        &&& self.to_send() matches Some(packet) ==> packet.wf() && packet.view().len() >= 1
    }

    /// No packet waits, neither for its channel nor in one that is to be flushed.
    pub open spec fn nothing_waits(&self) -> bool {
        &&& self.to_send() is None
        &&& forall|c: PacketChannel|
            self.to_flush().contains(c) ==> (#[trigger] self.sender(c)).slot() is None
    }

    /// Nothing but `channel` is different from `other`.
    pub open spec fn same_but(&self, other: Self, channel: PacketChannel) -> bool {
        &&& self.channels() == other.channels()
        &&& forall|c: PacketChannel| #[trigger]
            self.channels().contains(c) && c != channel ==> {
                &&& self.sender(c) == other.sender(c)
                &&& self.totals(c) == other.totals(c)
            }
    }

    /// The packets that have arrived for a channel.
    pub fn incoming_totals(&self, channel: PacketChannel) -> (totals: Option<ChannelTotals>)
        requires
            self.wf(),
        ensures
            totals == (if self.channels().contains(channel) {
                Some(self.totals(channel))
            } else {
                None
            }),
    {
        match get_channel(&self.index, channel) {
            Some(i) => {
                assert(self.channels().contains(channel));
                Some(self.incoming[i].totals)
            },
            None => None,
        }
    }

    /// Nothing but what waits to be sent or flushed is different from `other`.
    pub open spec fn same_channels(&self, other: Self) -> bool {
        &&& self.channels() == other.channels()
        &&& forall|c: PacketChannel| #[trigger]
            self.channels().contains(c) ==> {
                &&& self.sender(c) == other.sender(c)
                &&& self.totals(c) == other.totals(c)
            }
    }

    /// This and `result` are what [`IncomingMultiplexedPackets::try_send`] makes of `before` when it is
    /// called with `packet`.
    pub open spec fn tried(
        &self,
        before: Self,
        packet: P,
        result: Result<(), IncomingTrySendError<P>>,
    ) -> bool {
        let channel = packet.view()[0];
        &&& self.same_but(before, channel)
        &&& self.to_send() == before.to_send()
        &&& self.to_flush() == before.to_flush()
        &&& if before.channels().contains(channel) {
            &&& self.sender(channel).tried(before.sender(channel), mux(packet))
            &&& result == answering(
                self.sender(channel).outcome(before.sender(channel), mux(packet)),
            )
            &&& self.totals(channel) == (if result is Ok {
                before.totals(channel).marked(mux(packet).view().len())
            } else {
                before.totals(channel)
            })
        } else {
            result == Err::<(), IncomingTrySendError<P>>(
                IncomingTrySendError::Error(IncomingError::UnknownPacketChannel),
            )
        }
    }

    /// Attempt to send the given packet to the appropriate multiplexed channel without blocking.
    ///
    /// If a normal error occurs, returns `IncomingError::Error`, if the destination channel buffer
    /// is full, returns `IncomingTrySendError::IsFull`.
    pub fn try_send(&mut self, packet: P) -> (result: Result<(), IncomingTrySendError<P>>)
        requires
            old(self).wf(),
            packet.wf(),
            packet.view().len() >= 1,
        ensures
            final(self).wf(),
            final(self).tried(*old(self), packet, result),
            result == Err::<(), IncomingTrySendError<P>>(
                IncomingTrySendError::Error(IncomingError::UnknownPacketChannel),
            ) <==> !old(self).channels().contains(packet.view()[0]),
            old(self).channels().contains(packet.view()[0]) ==> {
                let channel = packet.view()[0];
                let answer = final(self).sender(channel).answers().last();
                // What the queue answered last is what is returned.
                &&& result is Ok <==> answer is Ok
                &&& result is Err ==> {
                    &&& result->Err_0 is IsFull <==> answer->Err_0 is Full
                    &&& result->Err_0 == IncomingTrySendError::<P>::Error(
                        IncomingError::ChannelReceiverDropped,
                    ) <==> answer->Err_0 is Disconnected
                    &&& final(self).totals(channel) == old(self).totals(channel)
                }
                &&& result is Ok ==> {
                    &&& final(self).totals(channel).packets == (old(self).totals(channel).packets
                        + 1) % 0x1_0000_0000_0000_0000
                    &&& final(self).totals(channel).bytes == (old(self).totals(channel).bytes
                        + packet.view().len() - 1) % 0x1_0000_0000_0000_0000
                }
            },
            ({
                let channel = packet.view()[0];
                let before = old(self).sender(channel);
                let after = final(self).sender(channel);
                match result {
                    Ok(()) => after.taken() == before.taken().push(mux(packet)),
                    Err(error) => {
                        &&& error matches IncomingTrySendError::IsFull(back) ==> {
                            &&& back == packet
                            &&& before.taken().len() >= before.capacity()
                        }
                        &&& old(self).channels().contains(channel) ==> after.taken()
                            == before.taken()
                    },
                }
            }),
    {
        let channel: PacketChannel = packet.as_slice()[0];
        let i: usize = match get_channel(&self.index, channel) {
            Some(i) => i,
            None => {
                return Err(IncomingTrySendError::Error(IncomingError::UnknownPacketChannel));
            },
        };
        assert(self.channels().contains(channel));
        let mux_packet_len: usize = packet.as_slice().len() - 1;
        let entry = &mut self.incoming[i];
        let result = answered(entry.sender.try_send(MuxPacket(packet)));
        if result.is_ok() {
            entry.totals.mark_packet(mux_packet_len);
        }
        assert(result is Ok ==> self.sender(channel).taken() =~= self.sender(channel).queued());
        result
    }

    /// What the queue of `channel` takes, apart from the packet that waits.
    pub open spec fn taken_with(&self, channel: PacketChannel, packet: Option<P>) -> Seq<
        MuxPacket<P>,
    > {
        match packet {
            Some(packet) => if packet.view()[0] == channel {
                self.sender(channel).taken().push(mux(packet))
            } else {
                self.sender(channel).taken()
            },
            None => self.sender(channel).taken(),
        }
    }

    /// The channel of the packet that waited in `before` has become ready for it, so the packet has
    /// entered that channel.
    pub open spec fn entered(&self, before: Self) -> Option<P> {
        match before.to_send() {
            Some(packet) => {
                let channel = packet.view()[0];
                if before.channels().contains(channel) && self.sender(channel).readiness(
                    before.sender(channel),
                ) == Ok::<bool, spsc::Disconnected>(true) {
                    Some(packet)
                } else {
                    None
                }
            },
            None => None,
        }
    }

    /// This and `result` are what [`IncomingMultiplexedPackets::poll_ready`] makes of `before`.
    pub open spec fn readied(
        &self,
        before: Self,
        result: Result<Option<PacketChannel>, IncomingError>,
    ) -> bool {
        match before.to_send() {
            None => {
                &&& result == Ok::<Option<PacketChannel>, IncomingError>(None)
                &&& *self == before
            },
            Some(packet) => {
                let channel = packet.view()[0];
                let ready = self.sender(channel).readiness(before.sender(channel));
                &&& self.same_but(before, channel)
                &&& if !before.channels().contains(channel) {
                    &&& result == Err::<Option<PacketChannel>, IncomingError>(
                        IncomingError::UnknownPacketChannel,
                    )
                    &&& self.to_send() is None
                    &&& self.to_flush() == before.to_flush()
                } else if ready == Ok::<bool, spsc::Disconnected>(true) {
                    &&& result == Ok::<Option<PacketChannel>, IncomingError>(None)
                    &&& self.to_send() is None
                    &&& self.to_flush() == before.to_flush().insert(channel)
                    &&& self.sender(channel).slot() == Some(mux(packet))
                    &&& self.sender(channel).queued() == before.sender(channel).taken()
                    &&& self.sender(channel).queue() == before.sender(channel).queue()
                    &&& self.sender(channel).answers() == (if before.sender(channel).slot() is None {
                        before.sender(channel).answers()
                    } else {
                        before.sender(channel).answers().push(
                            self.sender(channel).answers()[before.sender(
                                channel,
                            ).answers().len() as int],
                        )
                    })
                    &&& self.totals(channel) == before.totals(channel).marked(
                        mux(packet).view().len(),
                    )
                } else {
                    &&& self.sender(channel).polled(before.sender(channel))
                    &&& self.to_flush() == before.to_flush()
                    &&& self.totals(channel) == before.totals(channel)
                    &&& match ready {
                        Ok(_) => {
                            &&& result == Ok::<Option<PacketChannel>, IncomingError>(Some(channel))
                            &&& self.to_send() == before.to_send()
                        },
                        Err(_) => {
                            &&& result == Err::<Option<PacketChannel>, IncomingError>(
                                IncomingError::ChannelReceiverDropped,
                            )
                            &&& self.to_send() is None
                        },
                    }
                }
            },
        }
    }

    /// Sends the packet that waits to its channel, so that the next one can wait.
    ///
    /// Returns the channel that has no room yet. The packet is dropped on an error.
    pub fn poll_ready(&mut self) -> (result: Result<Option<PacketChannel>, IncomingError>)
        requires
            old(self).wf(),
        ensures
            final(self).wf(),
            final(self).readied(*old(self), result),
            old(self).to_send() is None ==> result == Ok::<Option<PacketChannel>, IncomingError>(None),
            result matches Ok(None) ==> final(self).to_send() is None,
            result matches Ok(Some(channel)) ==> {
                &&& final(self).to_send() == old(self).to_send()
                &&& old(self).to_send() matches Some(packet) && packet.view()[0] == channel
            },
            result is Err ==> final(self).to_send() is None,
            result == Err::<Option<PacketChannel>, IncomingError>(
                IncomingError::UnknownPacketChannel,
            ) <==> (old(self).to_send() matches Some(packet) && !old(self).channels().contains(
                packet.view()[0],
            )),
            old(self).to_send() matches Some(packet) ==> {
                let channel = packet.view()[0];
                let before = old(self).sender(channel);
                let after = final(self).sender(channel);
                match result {
                    Ok(None) => after.taken() == before.taken().push(mux(packet)),
                    Ok(Some(_)) => {
                        &&& before.queued().len() >= before.capacity()
                        &&& before.slot() is Some
                        &&& after.slot() is Some
                        &&& after.taken() == before.taken()
                    },
                    Err(_) => old(self).channels().contains(channel) ==> {
                        &&& before.slot() is Some
                        &&& after.slot() is None
                        &&& after.queued() == before.queued()
                    },
                }
            },
    {
        let mut to_send: Option<P> = None;
        std::mem::swap(&mut self.to_send, &mut to_send);
        let packet: P = match to_send {
            Some(packet) => packet,
            None => {
                return Ok(None);
            },
        };
        let channel: PacketChannel = packet.as_slice()[0];
        let i: usize = match get_channel(&self.index, channel) {
            Some(i) => i,
            None => {
                return Err(IncomingError::UnknownPacketChannel);
            },
        };
        assert(old(self).channels().contains(channel));
        let entry = &mut self.incoming[i];
        match entry.sender.poll_ready() {
            Ok(true) => {
                let mux_packet_len: usize = packet.as_slice().len() - 1;
                entry.sender.start_send(MuxPacket(packet));
                entry.totals.mark_packet(mux_packet_len);
                add_channel(&mut self.to_flush, channel);
                assert(self.sender(channel).taken() =~= old(self).sender(channel).taken().push(
                    mux(packet),
                ));
                Ok(None)
            },
            Ok(false) => {
                self.to_send = Some(packet);
                Ok(Some(channel))
            },
            Err(_) => Err(IncomingError::ChannelReceiverDropped),
        }
    }

    /// Whether no packet waits.
    pub fn is_ready(&self) -> (result: bool)
        ensures
            result == (self.to_send() is None),
    {
        self.to_send.is_none()
    }

    /// Lets a packet wait to be sent, once [`IncomingMultiplexedPackets::poll_ready`] has made room.
    pub fn start_send(&mut self, packet: P)
        requires
            old(self).wf(),
            old(self).to_send() is None,
            packet.wf(),
            packet.view().len() >= 1,
        ensures
            final(self).wf(),
            final(self).same_channels(*old(self)),
            final(self).to_send() == Some(packet),
            final(self).to_flush() == old(self).to_flush(),
    {
        self.to_send = Some(packet);
    }

    /// This is what becomes of `ready` when the channels that a packet may wait in are flushed one after
    /// another, up to `stopped` if that one could not be flushed. Each channel is asked at most once, and
    /// those that were not reached stay as they were.
    pub open spec fn drained(&self, ready: Self, stopped: Option<PacketChannel>) -> bool {
        &&& self.channels() == ready.channels()
        &&& self.to_send() == ready.to_send()
        &&& self.to_flush().subset_of(ready.to_flush())
        &&& match stopped {
            Some(c) => {
                &&& self.channels().contains(c)
                &&& self.to_flush().contains(c)
                &&& self.sender(c).readiness(ready.sender(c)) != Ok::<bool, spsc::Disconnected>(
                    true,
                )
            },
            None => self.to_flush() == Set::<PacketChannel>::empty(),
        }
        &&& forall|c: PacketChannel| #[trigger]
            self.channels().contains(c) ==> {
                &&& self.totals(c) == ready.totals(c)
                &&& if !ready.to_flush().contains(c) {
                    self.sender(c) == ready.sender(c)
                } else if !self.to_flush().contains(c) {
                    &&& self.sender(c).polled(ready.sender(c))
                    &&& self.sender(c).readiness(ready.sender(c)) == Ok::<bool, spsc::Disconnected>(
                        true,
                    )
                } else if stopped == Some(c) {
                    self.sender(c).polled(ready.sender(c))
                } else {
                    self.sender(c) == ready.sender(c)
                }
            }
    }

    /// This and `result` are what [`IncomingMultiplexedPackets::poll_flush`] makes of `before`: making
    /// room for the next packet gives `ready` and `made`, and if that succeeds the channels are flushed
    /// up to `stopped`.
    ///
    /// A channel whose receiver is gone drops the packet that waited in it.
    pub open spec fn flushed(
        &self,
        before: Self,
        ready: Self,
        made: Result<Option<PacketChannel>, IncomingError>,
        stopped: Option<PacketChannel>,
        result: Result<Option<PacketChannel>, IncomingError>,
    ) -> bool {
        &&& ready.readied(before, made)
        &&& if made == Ok::<Option<PacketChannel>, IncomingError>(None) {
            &&& self.drained(ready, stopped)
            &&& result == (match stopped {
                None => Ok(None),
                Some(c) => match self.sender(c).readiness(ready.sender(c)) {
                    Ok(_) => Ok(Some(c)),
                    Err(_) => Err(IncomingError::ChannelReceiverDropped),
                },
            })
        } else {
            &&& *self == ready
            &&& result == made
        }
    }

    /// Sends the packet that waits, and makes sure that no packet waits in a channel.
    ///
    /// Returns a channel that has no room yet. Unless there is an error no packet is lost, and none
    /// overtakes another one of the same channel. An error loses packets of one channel only: the one
    /// that waited in it, and the one that waited to be sent to it.
    pub fn poll_flush(&mut self) -> (result: Result<Option<PacketChannel>, IncomingError>)
        requires
            old(self).wf(),
        ensures
            final(self).wf(),
            exists|
                ready: Self,
                made: Result<Option<PacketChannel>, IncomingError>,
                stopped: Option<PacketChannel>,
            | #[trigger]
                final(self).flushed(*old(self), ready, made, stopped, result),
            final(self).channels() == old(self).channels(),
            (result == Err::<Option<PacketChannel>, IncomingError>(
                IncomingError::UnknownPacketChannel,
            )) == (old(self).to_send() matches Some(packet) && !old(self).channels().contains(
                packet.view()[0],
            )),
            old(self).nothing_waits() ==> result == Ok::<Option<PacketChannel>, IncomingError>(None),
            result matches Ok(blocked) ==> {
                &&& forall|c: PacketChannel| #[trigger]
                    final(self).channels().contains(c) ==> {
                        &&& final(self).taken_with(c, final(self).to_send()) == old(
                            self,
                        ).taken_with(c, old(self).to_send())
                        &&& !old(self).to_flush().contains(c) && !(old(
                            self,
                        ).to_send() matches Some(packet) && packet.view()[0] == c) ==> final(
                            self
                        ).sender(c) == old(self).sender(c)
                    }
                &&& blocked is None ==> {
                    &&& final(self).to_send() is None
                    &&& final(self).to_flush() == Set::<PacketChannel>::empty()
                    &&& forall|c: PacketChannel|
                        old(self).to_flush().contains(c) ==> (#[trigger] final(self).sender(
                            c,
                        )).slot() is None
                }
                &&& match blocked {
                    Some(c) => {
                        &&& final(self).channels().contains(c)
                        &&& final(self).sender(c).slot() is Some
                    },
                    None => true,
                }
            },
            result is Err ==> {
                &&& final(self).to_send() is None
                &&& exists|lossy: PacketChannel| #[trigger]
                    final(self).kept_but(*old(self), lossy)
            },
    {
        let made = self.poll_ready();
        let ghost ready = *self;
        match made {
            Ok(None) => {},
            other => {
                proof {
                    if other is Err {
                        let lossy = old(self).to_send()->0.view()[0];
                        if old(self).channels().contains(lossy) {
                            assert(self.sender(lossy).queued().is_prefix_of(
                                old(self).taken_with(lossy, old(self).to_send()),
                            ));
                        }
                        assert(self.kept_but(*old(self), lossy));
                    }
                    assert(self.flushed(*old(self), ready, made, None, other));
                }
                return other;
            },
        }
        let ghost idle = old(self).nothing_waits();
        loop
            invariant
                self.wf(),
                ready.readied(*old(self), made),
                made == Ok::<Option<PacketChannel>, IncomingError>(None),
                idle == old(self).nothing_waits(),
                idle ==> forall|c: PacketChannel|
                    ready.to_flush().contains(c) ==> (#[trigger] self.sender(c)).slot() is None,
                self.channels() == old(self).channels(),
                ready.channels() == old(self).channels(),
                self.to_send() is None,
                ready.to_send() is None,
                self.to_flush().subset_of(ready.to_flush()),
                old(self).to_send() matches Some(packet) ==> old(self).channels().contains(
                    packet.view()[0],
                ),
                forall|c: PacketChannel| #[trigger]
                    self.channels().contains(c) ==> {
                        &&& self.sender(c).taken() == old(self).taken_with(c, old(self).to_send())
                        &&& ready.to_flush().contains(c) || self.sender(c) == old(self).sender(c)
                        &&& (ready.to_flush().contains(c) && !self.to_flush().contains(c))
                            ==> self.sender(c).slot() is None
                        &&& self.totals(c) == ready.totals(c)
                        &&& if ready.to_flush().contains(c) && !self.to_flush().contains(c) {
                            &&& self.sender(c).polled(ready.sender(c))
                            &&& self.sender(c).readiness(ready.sender(c)) == Ok::<
                                bool,
                                spsc::Disconnected,
                            >(true)
                        } else {
                            self.sender(c) == ready.sender(c)
                        }
                    },
                old(self).to_flush().subset_of(ready.to_flush()),
                ready.to_flush().subset_of(ready.channels()),
                forall|c: PacketChannel|
                    ready.to_flush().contains(c) && !old(self).to_flush().contains(c) ==> (
                    old(self).to_send() matches Some(packet) && packet.view()[0] == c),
            decreases self.to_flush().len(),
        {
            let channel: PacketChannel = match any_channel(&self.to_flush) {
                Some(channel) => channel,
                None => {
                    assert(self.flushed(*old(self), ready, made, None, Ok(None)));
                    return Ok(None);
                },
            };
            assert(self.channels().contains(channel));
            let i: usize = match get_channel(&self.index, channel) {
                Some(i) => i,
                None => {
                    return Err(IncomingError::UnknownPacketChannel);
                },
            };
            let ghost before = *self;
            let entry = &mut self.incoming[i];
            match entry.sender.poll_ready() {
                Ok(true) => {},
                Ok(false) => {
                    assert(self.flushed(*old(self), ready, made, Some(channel), Ok(Some(channel))));
                    return Ok(Some(channel));
                },
                Err(_) => {
                    proof {
                        let dropped = Err(IncomingError::ChannelReceiverDropped);
                        assert(self.flushed(*old(self), ready, made, Some(channel), dropped));
                        assert(self.sender(channel).queued().is_prefix_of(
                            before.sender(channel).taken(),
                        ));
                        assert(self.kept_but(*old(self), channel));
                    }
                    return Err(IncomingError::ChannelReceiverDropped);
                },
            }
            remove_channel(&mut self.to_flush, channel);
        }
    }

    /// All packets that `before` had, waiting or not, are still there, but for the last ones of the
    /// channel `lossy`.
    pub open spec fn kept_but(&self, before: Self, lossy: PacketChannel) -> bool {
        &&& self.channels() == before.channels()
        &&& forall|c: PacketChannel| #[trigger]
            self.channels().contains(c) && c != lossy ==> self.sender(c).taken()
                == before.taken_with(c, before.to_send())
        &&& self.channels().contains(lossy) ==> {
            &&& self.sender(lossy).slot() is None
            &&& self.sender(lossy).queued().is_prefix_of(
                before.taken_with(lossy, before.to_send()),
            )
        }
    }
}

/// A packet that is marked with its channel is routed to that channel, with the bytes that it had
/// before.
pub proof fn law_route_back<P: Packet>(channel: PacketChannel, bytes: Seq<u8>, packet: P)
    requires
        packet.view() == seq![channel] + bytes,
    ensures
        packet.view()[0] == channel,
        mux(packet).view() == bytes,
{
    assert(mux(packet).view() =~= bytes);
}

/// A channel carries packets from one multiplexer to another as they were and in order: what is received
/// at the far end are the first packets that were sent at the near end, with the same bytes.
///
/// `marked` are the packets that the near end's source returned, and those of them that have entered the
/// far end did so in that order. Both queues are taken to hand out what was put in, oldest first.
pub proof fn law_channel_in_order<P: Packet>(
    sender: Sender<MuxPacket<P>, WellFormed>,
    source: ChannelReceiver<P>,
    marked: Seq<P>,
    incoming: IncomingMultiplexedPackets<P>,
    receiver: Receiver<MuxPacket<P>, WellFormed>,
)
    requires
        sender.queue() == source.queue(),
        source.received().is_prefix_of(sender.queued()),
        marked.len() == source.received().len(),
        forall|i: int|
            0 <= i < marked.len() ==> (#[trigger] marked[i]).view() == seq![source.channel()]
                + source.received()[i].view(),
        incoming.sender(source.channel()).queued().len() <= marked.len(),
        forall|i: int| #![trigger marked[i]]
            0 <= i < incoming.sender(source.channel()).queued().len() ==> incoming.sender(
                source.channel(),
            ).queued()[i] == mux(marked[i]),
        incoming.sender(source.channel()).queue() == receiver.queue(),
        receiver.received().is_prefix_of(incoming.sender(source.channel()).queued()),
    ensures
        receiver.received().len() <= sender.queued().len(),
        forall|i: int|
            0 <= i < receiver.received().len() ==> (#[trigger] receiver.received()[i]).view()
                == sender.queued()[i].view(),
{
    assert forall|i: int| 0 <= i < receiver.received().len() implies (
    #[trigger] receiver.received()[i]).view() == sender.queued()[i].view() by {
        law_route_back(source.channel(), source.received()[i].view(), marked[i]);
    }
}

/// A call that brings incoming packets to their channels, with what it was given and returned.
pub enum IncomingCall<P> {
    TrySend(P, Result<(), IncomingTrySendError<P>>),
    StartSend(P),
    PollReady(Result<Option<PacketChannel>, IncomingError>),
    PollFlush(Result<Option<PacketChannel>, IncomingError>),
}

impl<P: Packet> IncomingCall<P> {
    /// The call turns `before` into `after`.
    pub open spec fn turns(
        self,
        before: IncomingMultiplexedPackets<P>,
        after: IncomingMultiplexedPackets<P>,
    ) -> bool {
        match self {
            IncomingCall::TrySend(packet, result) => after.tried(before, packet, result),
            IncomingCall::StartSend(packet) => {
                &&& after.same_channels(before)
                &&& after.to_send() == Some(packet)
                &&& after.to_flush() == before.to_flush()
            },
            IncomingCall::PollReady(result) => after.readied(before, result),
            IncomingCall::PollFlush(result) => exists|
                ready: IncomingMultiplexedPackets<P>,
                made: Result<Option<PacketChannel>, IncomingError>,
                stopped: Option<PacketChannel>,
            | #[trigger]
                after.flushed(before, ready, made, stopped, result),
        }
    }

    /// The packet that entered its channel by this call.
    pub open spec fn entering(
        self,
        before: IncomingMultiplexedPackets<P>,
        after: IncomingMultiplexedPackets<P>,
    ) -> Option<P> {
        match self {
            IncomingCall::TrySend(packet, result) => if result is Ok {
                Some(packet)
            } else {
                None
            },
            IncomingCall::StartSend(packet) => None,
            IncomingCall::PollReady(result) => after.entered(before),
            IncomingCall::PollFlush(result) => after.entered(before),
        }
    }

    /// The packet that entered `channel` by this call.
    pub open spec fn entering_to(
        self,
        before: IncomingMultiplexedPackets<P>,
        after: IncomingMultiplexedPackets<P>,
        channel: PacketChannel,
    ) -> Option<P> {
        match self.entering(before, after) {
            Some(packet) => if packet.view()[0] == channel {
                Some(packet)
            } else {
                None
            },
            None => None,
        }
    }
}

/// The packets that entered `channel` by `calls`, the call at each index turning the state at that index
/// into the next one.
pub open spec fn entered_packets<P: Packet>(
    states: Seq<IncomingMultiplexedPackets<P>>,
    calls: Seq<IncomingCall<P>>,
    channel: PacketChannel,
) -> Seq<P>
    decreases calls.len(),
{
    if calls.len() == 0 {
        Seq::empty()
    } else {
        let last = calls.len() - 1;
        let packets = entered_packets(states, calls.drop_last(), channel);
        match calls[last].entering_to(states[last], states[last + 1], channel) {
            Some(packet) => packets.push(packet),
            None => packets,
        }
    }
}

/// The number of bytes in `packets`, without their channels.
pub open spec fn carried_bytes<P: Packet>(packets: Seq<P>) -> nat
    decreases packets.len(),
{
    if packets.len() == 0 {
        0
    } else {
        carried_bytes(packets.drop_last()) + mux(packets.last()).view().len()
    }
}

/// A call counts the packet that enters a channel by it, and nothing else.
proof fn lemma_call_counts<P: Packet>(
    call: IncomingCall<P>,
    before: IncomingMultiplexedPackets<P>,
    after: IncomingMultiplexedPackets<P>,
    channel: PacketChannel,
)
    requires
        call.turns(before, after),
        before.channels().contains(channel),
    ensures
        after.channels() == before.channels(),
        after.totals(channel) == (match call.entering_to(before, after, channel) {
            Some(packet) => before.totals(channel).marked(mux(packet).view().len()),
            None => before.totals(channel),
        }),
{
    match call {
        IncomingCall::PollFlush(result) => {
            let (ready, made, stopped) = choose|
                ready: IncomingMultiplexedPackets<P>,
                made: Result<Option<PacketChannel>, IncomingError>,
                stopped: Option<PacketChannel>,
            | #[trigger]
                after.flushed(before, ready, made, stopped, result);
            assert(ready.channels() == before.channels());
            assert(after.channels() == ready.channels());
            assert(after.channels().contains(channel));
            if let Some(packet) = before.to_send() {
                let c = packet.view()[0];
                assert(after.channels().contains(c) ==> after.sender(c).readiness(before.sender(c))
                    == ready.sender(c).readiness(before.sender(c)));
            }
        },
        _ => {},
    }
}

/// The incoming totals of a channel are the number of packets that have entered it and the number of
/// their bytes, over any calls: packets that were refused or went to other channels add nothing. The
/// totals wrap around.
pub proof fn law_incoming_totals<P: Packet>(
    states: Seq<IncomingMultiplexedPackets<P>>,
    calls: Seq<IncomingCall<P>>,
    channel: PacketChannel,
)
    requires
        states.len() == calls.len() + 1,
        states[0].channels().contains(channel),
        states[0].totals(channel) == ChannelTotals::zero(),
        forall|i: int| #![trigger calls[i]]
            0 <= i < calls.len() ==> calls[i].turns(states[i], states[i + 1]),
    ensures
        states.last().channels() == states[0].channels(),
        ({
            let packets = entered_packets(states, calls, channel);
            &&& states.last().totals(channel).packets == packets.len() % 0x1_0000_0000_0000_0000
            &&& states.last().totals(channel).bytes == carried_bytes(packets)
                % 0x1_0000_0000_0000_0000
        }),
    decreases calls.len(),
{
    if calls.len() > 0 {
        let last = calls.len() - 1;
        let earlier = calls.drop_last();
        lemma_entered_prefix(states, earlier, channel);
        law_incoming_totals(states.drop_last(), earlier, channel);
        assert(states.drop_last().last() == states[last]);
        assert(calls[last].turns(states[last], states[last + 1]));
        lemma_call_counts(calls[last], states[last], states[last + 1], channel);
        let before = entered_packets(states, earlier, channel);
        let packets = entered_packets(states, calls, channel);
        if let Some(packet) = calls[last].entering_to(states[last], states[last + 1], channel) {
            assert(packets.drop_last() =~= before);
        }
    }
}

/// Which packets entered by some calls does not depend on what comes after the last of them.
proof fn lemma_entered_prefix<P: Packet>(
    states: Seq<IncomingMultiplexedPackets<P>>,
    calls: Seq<IncomingCall<P>>,
    channel: PacketChannel,
)
    requires
        states.len() > calls.len() + 1,
    ensures
        entered_packets(states.drop_last(), calls, channel) == entered_packets(
            states,
            calls,
            channel,
        ),
    decreases calls.len(),
{
    if calls.len() > 0 {
        lemma_entered_prefix(states, calls.drop_last(), channel);
    }
}

} // verus!
