//! Channels that each carry one type of message.
//!
//! A message type stands for itself by a number that its user gives it.

use std::collections::HashSet;
use vstd::prelude::*;

use crate::channel_builder::{newly_opened, unused_channel, ChannelBuilder, Ends};
use crate::compressed_typed_channel::CompressedTypedChannel;
use crate::framing::PREFIX_LEN;
use crate::packet::PacketPool;
use crate::packet_multiplexer::{
    DuplicateChannel, MuxPacketPool, PacketChannel, PacketMultiplexer,
};
use crate::reliable_bincode_channel::ReliableBincodeChannel;
use crate::reliable_channel::segment::ACK_LEN;
use crate::reliable_channel::ReliableChannel;
use crate::spsc::{TryRecvError, TrySendError};
use crate::unreliable_bincode_channel::{UnreliableBincodeChannel, UnreliableBincodeView};
use crate::unreliable_channel::UnreliableView;
use crate::{reliable_channel, unreliable_channel};

verus! {

#[derive(Debug, Clone, Copy, PartialEq, Eq, Structural)]
pub struct MessageChannelSettings {
    pub channel: PacketChannel,
    pub channel_mode: MessageChannelMode,
    /// The buffer size for the mpsc channel of messages that transports messages of this type to /
    /// from the network task.
    pub message_buffer_size: usize,
    /// The buffer size for the mpsc channel of packets for this message type that transports
    /// packets to / from the packet multiplexer.
    pub packet_buffer_size: usize,
}

#[derive(Debug, Clone, Copy, PartialEq, Eq, Structural)]
pub enum MessageChannelMode {
    Unreliable(unreliable_channel::Settings),
    Reliable { reliability_settings: reliable_channel::Settings, max_message_len: u16 },
    Compressed { reliability_settings: reliable_channel::Settings, max_chunk_len: u16 },
}

#[derive(Debug, Clone, Copy, PartialEq, Eq, Structural)]
pub enum ChannelAlreadyRegistered {
    /// Message type already registered.
    MessageType,
    /// Channel already registered.
    Channel,
}

/// No such message type registered.
#[derive(Debug, Clone, Copy, PartialEq, Eq, Structural)]
pub struct MessageTypeUnregistered;

#[derive(Debug, Clone, Copy, PartialEq, Eq, Structural)]
pub enum AsyncMessageError {
    Unregistered(MessageTypeUnregistered),
    /// Message channel has been disconnected.
    Disconnected,
}

/// Registers message types, each with a channel of its own.
pub struct MessageChannelsBuilder {
    channels: HashSet<PacketChannel>,
    registered: Vec<(u64, MessageChannelSettings)>,
}

/// Some entry is about this message type.
pub open spec fn has_type(registered: Seq<(u64, MessageChannelSettings)>, message_type: u64) -> bool {
    exists|i: int| 0 <= i < registered.len() && #[trigger] registered[i].0 == message_type
}

impl MessageChannelsBuilder {
    /// The channels that were asked for.
    pub closed spec fn channels(&self) -> Set<PacketChannel> {
        self.channels@
    }

    /// The message types and their settings, in the order in which they were registered.
    pub closed spec fn registered(&self) -> Seq<(u64, MessageChannelSettings)> {
        self.registered@
    }

    /// No two message types share a number or a channel.
    pub open spec fn wf(&self) -> bool {
        &&& forall|i: int, j: int|
            #![trigger self.registered()[i], self.registered()[j]]
            0 <= i < j < self.registered().len() ==> {
                &&& self.registered()[i].0 != self.registered()[j].0
                &&& self.registered()[i].1.channel != self.registered()[j].1.channel
            }
        &&& forall|i: int|
            #![trigger self.registered()[i]]
            0 <= i < self.registered().len() ==> self.channels().contains(
                self.registered()[i].1.channel,
            )
    }

    pub fn new() -> (builder: Self)
        ensures
            builder.wf(),
            builder.channels() == Set::<PacketChannel>::empty(),
            builder.registered() == Seq::<(u64, MessageChannelSettings)>::empty(),
    {
        MessageChannelsBuilder { channels: HashSet::new(), registered: Vec::new() }
    }

    /// Register this message type on the constructed `MessageChannels`, using the given channel
    /// settings.
    ///
    /// Can only be called once per message type, will error if it is called with the same message
    /// type more than once. The channel that was asked for is taken even then.
    pub fn register(&mut self, message_type: u64, settings: MessageChannelSettings) -> (result:
        Result<(), ChannelAlreadyRegistered>)
        requires
            old(self).wf(),
        ensures
            final(self).wf(),
            result == (if old(self).channels().contains(settings.channel) {
                Err::<(), ChannelAlreadyRegistered>(ChannelAlreadyRegistered::Channel)
            } else if has_type(old(self).registered(), message_type) {
                Err::<(), ChannelAlreadyRegistered>(ChannelAlreadyRegistered::MessageType)
            } else {
                Ok::<(), ChannelAlreadyRegistered>(())
            }),
            result == Err::<(), ChannelAlreadyRegistered>(ChannelAlreadyRegistered::Channel)
                <==> old(self).channels().contains(settings.channel),
            result is Ok <==> !old(self).channels().contains(settings.channel) && forall|i: int|
                0 <= i < old(self).registered().len() ==> (#[trigger] old(self).registered()[i]).0
                    != message_type,
            final(self).channels() == old(self).channels().insert(settings.channel),
            final(self).registered() == (if result is Ok {
                old(self).registered().push((message_type, settings))
            } else {
                old(self).registered()
            }),
    {
        broadcast use vstd::std_specs::hash::group_hash_axioms;

        if !self.channels.insert(settings.channel) {
            assert(self.channels() =~= old(self).channels());
            return Err(ChannelAlreadyRegistered::Channel);
        }
        let mut i: usize = 0;
        while i < self.registered.len()
            invariant
                i <= self.registered.len(),
                self.registered@ == old(self).registered@,
                self.channels() == old(self).channels().insert(settings.channel),
                !old(self).channels().contains(settings.channel),
                old(self).wf(),
                forall|k: int| 0 <= k < i ==> #[trigger] self.registered@[k].0 != message_type,
            decreases self.registered.len() - i,
        {
            if self.registered[i].0 == message_type {
                assert(self.registered()[i as int].0 == message_type);
                return Err(ChannelAlreadyRegistered::MessageType);
            }
            i = i + 1;
        }
        self.registered.push((message_type, settings));
        Ok(())
    }

    /// Build a `MessageChannels` instance that can send and receive all of the registered message
    /// types. The channel of each of them is then to be opened with its settings.
    pub fn build(self) -> (result: (MessageChannels, Vec<(u64, MessageChannelSettings)>))
        ensures
            result.0.connected(),
            result.1@ == self.registered(),
            forall|t: u64| #[trigger]
                result.0.is_registered(t) <==> has_type(self.registered(), t),
            forall|t: u64| #[trigger]
                result.0.is_registered(t) <==> exists|i: int|
                    0 <= i < self.registered().len() && (#[trigger] self.registered()[i]).0 == t,
    {
        let mut types: Vec<u64> = Vec::new();
        let mut i: usize = 0;
        while i < self.registered.len()
            invariant
                i <= self.registered.len(),
                types@.len() == i,
                forall|k: int| 0 <= k < i ==> #[trigger] types@[k] == self.registered@[k].0,
            decreases self.registered.len() - i,
        {
            types.push(self.registered[i].0);
            i = i + 1;
        }
        let channels = MessageChannels { disconnected: false, types };
        assert forall|t: u64| #[trigger]
            channels.is_registered(t) <==> has_type(self.registered(), t) by {
            if channels.is_registered(t) {
                let k = choose|k: int| 0 <= k < types@.len() && types@[k] == t;
                assert(self.registered()[k].0 == t);
            }
            if has_type(self.registered(), t) {
                let k = choose|k: int|
                    0 <= k < self.registered().len() && #[trigger] self.registered()[k].0 == t;
                assert(types@[k] == t);
            }
        }
        (channels, self.registered)
    }
}

/// Manages a set of channels through a packet multiplexer, where each channel is associated with
/// exactly one message type.
///
/// Acts as a bridge between the sync and async worlds.  Provides sync methods to send and receive
/// messages that do not block or error.  The only error condition is if any of the backing tasks
/// end or if the backing packet channels are dropped, the `MessageChannels` will permanently go
/// into a "disconnected" state.
///
/// The queues of the message types are those of the user, who attempts to send or to receive only
/// where that is allowed, and reports the outcome.
#[derive(Debug)]
pub struct MessageChannels {
    disconnected: bool,
    types: Vec<u64>,
}

impl MessageChannels {
    pub closed spec fn connected(&self) -> bool {
        !self.disconnected
    }

    pub closed spec fn is_registered(&self, message_type: u64) -> bool {
        self.types@.contains(message_type)
    }

    /// The same message types are registered.
    pub open spec fn same_types(&self, other: Self) -> bool {
        forall|t: u64| #[trigger] self.is_registered(t) == other.is_registered(t)
    }

    /// Returns whether this `MessageChannels` has become disconnected because the backing network
    /// task has errored.
    ///
    /// Once it has become disconnected, a `MessageChannels` is permanently in this errored state.
    pub fn is_connected(&self) -> (result: bool)
        ensures
            result == self.connected(),
    {
        !self.disconnected
    }

    /// Whether a message of this type may be sent or received.
    pub fn try_use(&self, message_type: u64) -> (result: Result<bool, MessageTypeUnregistered>)
        ensures
            result == (if self.is_registered(message_type) {
                Ok::<bool, MessageTypeUnregistered>(self.connected())
            } else {
                Err::<bool, MessageTypeUnregistered>(MessageTypeUnregistered)
            }),
    {
        let mut i: usize = 0;
        while i < self.types.len()
            invariant
                i <= self.types.len(),
                forall|k: int| 0 <= k < i ==> #[trigger] self.types@[k] != message_type,
            decreases self.types.len() - i,
        {
            if self.types[i] == message_type {
                assert(self.types@[i as int] == message_type);
                return Ok(!self.disconnected);
            }
            i = i + 1;
        }
        Err(MessageTypeUnregistered)
    }

    /// Like [`MessageChannels::try_use`] for the async methods.
    pub fn try_async_use(&self, message_type: u64) -> (result: Result<(), AsyncMessageError>)
        ensures
            result == (if !self.is_registered(message_type) {
                Err::<(), AsyncMessageError>(
                    AsyncMessageError::Unregistered(MessageTypeUnregistered),
                )
            } else if self.connected() {
                Ok::<(), AsyncMessageError>(())
            } else {
                Err::<(), AsyncMessageError>(AsyncMessageError::Disconnected)
            }),
    {
        match self.try_use(message_type) {
            Err(error) => Err(AsyncMessageError::Unregistered(error)),
            Ok(true) => Ok(()),
            Ok(false) => Err(AsyncMessageError::Disconnected),
        }
    }

    /// Takes note of an attempt to send a message.
    ///
    /// If the queue for this message type is full, will return the message that was sent back to
    /// the caller.  If the message was successfully put onto the outgoing queue, will return None.
    pub fn try_send<M>(&mut self, attempt: Result<(), TrySendError<M>>) -> (result: Option<M>)
        requires
            old(self).connected(),
        ensures
            final(self).same_types(*old(self)),
            result == (match attempt {
                Ok(()) => None,
                Err(error) => Some(error.item()),
            }),
            final(self).connected() == !(attempt matches Err(TrySendError::Disconnected(_))),
    {
        match attempt {
            Ok(()) => None,
            Err(error) => {
                if !error.is_full() {
                    self.disconnected = true;
                }
                Some(error.into_inner())
            },
        }
    }

    /// Takes note of an attempt to send a message that waited for room, and of whether the message
    /// was sent.
    pub fn try_async_send(&mut self, sent: bool) -> (result: Result<(), AsyncMessageError>)
        requires
            old(self).connected(),
        ensures
            final(self).same_types(*old(self)),
            result == (if sent {
                Ok::<(), AsyncMessageError>(())
            } else {
                Err::<(), AsyncMessageError>(AsyncMessageError::Disconnected)
            }),
            final(self).connected() == sent,
    {
        if sent {
            Ok(())
        } else {
            self.disconnected = true;
            Err(AsyncMessageError::Disconnected)
        }
    }

    /// Takes note of an attempt to receive a message. Returns the message, if one is available.
    pub fn try_recv<M>(&mut self, attempt: Result<M, TryRecvError>) -> (result: Option<M>)
        requires
            old(self).connected(),
        ensures
            final(self).same_types(*old(self)),
            result == (match attempt {
                Ok(message) => Some(message),
                Err(_) => None,
            }),
            final(self).connected() == !(attempt matches Err(TryRecvError::Disconnected)),
    {
        match attempt {
            Ok(message) => Some(message),
            Err(TryRecvError::Disconnected) => {
                self.disconnected = true;
                None
            },
            Err(TryRecvError::Empty) => None,
        }
    }

    /// Takes note of an attempt to receive a message that waited for one.
    pub fn try_async_recv<M>(&mut self, message: Option<M>) -> (result: Result<M, AsyncMessageError>)
        requires
            old(self).connected(),
        ensures
            final(self).same_types(*old(self)),
            result == (match message {
                Some(message) => Ok(message),
                None => Err(AsyncMessageError::Disconnected),
            }),
            final(self).connected() == (message is Some),
    {
        match message {
            Some(message) => Ok(message),
            None => {
                self.disconnected = true;
                Err(AsyncMessageError::Disconnected)
            },
        }
    }
}

impl MessageChannelSettings {
    /// A channel with these settings can be opened with packets of capacity `limit`.
    pub open spec fn openable(self, limit: nat) -> bool {
        &&& self.packet_buffer_size <= usize::MAX / 4
        &&& match self.channel_mode {
            MessageChannelMode::Unreliable(_) => limit >= PREFIX_LEN,
            MessageChannelMode::Reliable { reliability_settings, .. } => {
                &&& limit >= ACK_LEN
                &&& reliability_settings.valid()
            },
            MessageChannelMode::Compressed { reliability_settings, max_chunk_len } => {
                &&& limit >= ACK_LEN
                &&& reliability_settings.valid()
                &&& max_chunk_len > 1
            },
        }
    }

    /// Whether a channel with these settings can be opened with packets of this capacity.
    pub fn is_openable(&self, capacity: usize) -> (result: bool)
        ensures
            result == self.openable(capacity as nat),
    {
        self.packet_buffer_size <= usize::MAX / 4 && match self.channel_mode {
            MessageChannelMode::Unreliable(_) => capacity >= PREFIX_LEN,
            MessageChannelMode::Reliable { reliability_settings, .. } => {
                capacity >= ACK_LEN && reliability_settings.is_valid()
            },
            MessageChannelMode::Compressed { reliability_settings, max_chunk_len } => {
                capacity >= ACK_LEN && reliability_settings.is_valid() && max_chunk_len > 1
            },
        }
    }
}

/// Packets must have room for what a channel puts in them besides the messages, a reliable channel must have
/// settings that it can work with, and a chunk must be longer than one byte.
pub proof fn law_openable_settings(settings: MessageChannelSettings, limit: nat)
    requires
        settings.packet_buffer_size <= usize::MAX / 4,
    ensures
        settings.openable(limit) <==> match settings.channel_mode {
            MessageChannelMode::Unreliable(_) => limit >= 2,
            MessageChannelMode::Reliable { reliability_settings, .. } => {
                &&& limit >= 10
                &&& reliability_settings.valid()
            },
            MessageChannelMode::Compressed { reliability_settings, max_chunk_len } => {
                &&& limit >= 10
                &&& reliability_settings.valid()
                &&& max_chunk_len >= 2
            },
        },
{
}

/// The channel of a message type, with the reliable channel below it if there is one.
pub enum MessageChannel<P: PacketPool, I> {
    Unreliable(UnreliableBincodeChannel<P>),
    Reliable(ReliableBincodeChannel, ReliableChannel<P, I>),
    Compressed(CompressedTypedChannel, ReliableChannel<P, I>),
}

impl<P: PacketPool, I: Copy> MessageChannel<P, I> {
    /// This is a channel of the given mode that has not been used yet, with packets of capacity
    /// `limit`.
    pub open spec fn unused(self, mode: MessageChannelMode, limit: nat) -> bool {
        match (mode, self) {
            (MessageChannelMode::Unreliable(_), MessageChannel::Unreliable(opened)) => {
                &&& opened.wf()
                &&& opened@ == (UnreliableBincodeView {
                    channel: UnreliableView { limit, out: Seq::empty(), unread: Seq::empty() },
                    pending: Seq::empty(),
                })
            },
            (
                MessageChannelMode::Reliable { reliability_settings, max_message_len },
                MessageChannel::Reliable(opened, reliable),
            ) => {
                &&& unused_channel(reliable, reliability_settings, limit)
                &&& opened.wf()
                &&& opened.max_message_len() == max_message_len
                &&& opened.outgoing() == Seq::<u8>::empty()
                &&& opened.incoming() == Seq::<u8>::empty()
            },
            (
                MessageChannelMode::Compressed { reliability_settings, max_chunk_len },
                MessageChannel::Compressed(opened, reliable),
            ) => {
                &&& unused_channel(reliable, reliability_settings, limit)
                &&& opened.wf()
                &&& opened.max_chunk_len() == max_chunk_len
                &&& opened.sender().queued() == Seq::<u8>::empty()
                &&& opened.sender().outgoing() == Seq::<u8>::empty()
                &&& opened.receiver().incoming() == Seq::<u8>::empty()
                &&& opened.receiver().unread() == Seq::<u8>::empty()
            },
            _ => false,
        }
    }
}

/// A channel that was opened is of the mode that was asked for, with the limits that were asked for.
pub proof fn law_opened_in_mode<P: PacketPool, I: Copy>(
    opened: MessageChannel<P, I>,
    mode: MessageChannelMode,
    limit: nat,
)
    requires
        opened.unused(mode, limit),
    ensures
        mode is Unreliable <==> opened is Unreliable,
        mode is Reliable <==> opened is Reliable,
        mode is Compressed <==> opened is Compressed,
        opened matches MessageChannel::Unreliable(channel) ==> channel@.channel.limit == limit,
        mode matches MessageChannelMode::Reliable { reliability_settings, max_message_len } ==> {
            &&& opened matches MessageChannel::Reliable(channel, reliable)
            &&& channel.max_message_len() == max_message_len
            &&& unused_channel(reliable, reliability_settings, limit)
        },
        mode matches MessageChannelMode::Compressed { reliability_settings, max_chunk_len } ==> {
            &&& opened matches MessageChannel::Compressed(channel, reliable)
            &&& channel.max_chunk_len() == max_chunk_len
            &&& unused_channel(reliable, reliability_settings, limit)
        },
{
}

/// Opens the channel of a message type, in the mode that its settings ask for.
pub fn open_message_channel<R, P: PacketPool + Clone, I: Copy>(
    builder: &ChannelBuilder<R, P>,
    multiplexer: &mut PacketMultiplexer<P::Packet>,
    settings: &MessageChannelSettings,
) -> (result: Result<(MessageChannel<MuxPacketPool<P>, I>, Ends<P::Packet>), DuplicateChannel>)
    requires
        builder.wf(),
        old(multiplexer).wf(),
        settings.openable(builder.pool.limit()),
    ensures
        final(multiplexer).wf(),
        match result {
            Ok((opened, ends)) => {
                &&& newly_opened(
                    *old(multiplexer),
                    *final(multiplexer),
                    settings.channel,
                    settings.packet_buffer_size,
                    ends,
                )
                &&& opened.unused(settings.channel_mode, builder.pool.limit())
            },
            Err(_) => {
                &&& old(multiplexer).channels().contains(settings.channel)
                &&& *final(multiplexer) == *old(multiplexer)
            },
        },
{
    let channel: PacketChannel = settings.channel;
    let buffer_size: usize = settings.packet_buffer_size;
    match settings.channel_mode {
        MessageChannelMode::Unreliable(_) => {
            match builder.open_unreliable_bincode_channel(multiplexer, channel, buffer_size) {
                Ok((opened, ends)) => Ok((MessageChannel::Unreliable(opened), ends)),
                Err(error) => Err(error),
            }
        },
        MessageChannelMode::Reliable { reliability_settings, max_message_len } => {
            match builder.open_reliable_bincode_channel(
                multiplexer,
                channel,
                buffer_size,
                &reliability_settings,
                max_message_len,
            ) {
                Ok((opened, reliable, ends)) => {
                    Ok((MessageChannel::Reliable(opened, reliable), ends))
                },
                Err(error) => Err(error),
            }
        },
        MessageChannelMode::Compressed { reliability_settings, max_chunk_len } => {
            match builder.open_compressed_typed_channel(
                multiplexer,
                channel,
                buffer_size,
                &reliability_settings,
                max_chunk_len,
            ) {
                Ok((opened, reliable, ends)) => {
                    Ok((MessageChannel::Compressed(opened, reliable), ends))
                },
                Err(error) => Err(error),
            }
        },
    }
}

/// What the task behind one message type is told.
pub enum Event<M> {
    /// A message has arrived from the network.
    Incoming(M),
    /// A message is to be sent, or the queue of messages to be sent is gone.
    Outgoing(Option<M>),
    /// A flush was asked for.
    Flush,
    /// The message from the network was handed to the user.
    Delivered,
    /// The message was written to the channel.
    Sent,
    /// The queue of messages to be sent holds none.
    Drained,
    /// The channel was flushed.
    Flushed,
}

/// What the task behind one message type has to do next.
pub enum Action<M> {
    /// Wait for a message from the network, a message to be sent, or a flush.
    Wait,
    /// Hand this message to the user.
    Deliver(M),
    /// Write this message to the channel.
    Send(M),
    /// Look for one more message to be sent, without waiting.
    Poll,
    /// Flush the channel.
    Flush,
    /// End, because the user is gone.
    Stop,
}

/// The task behind one message type, as far as it decides what to do.
#[derive(Debug, Clone, Copy, PartialEq, Eq, Structural)]
pub struct ChannelTask {
    /// A flush was asked for, and messages may be left to be sent before.
    draining: bool,
}

/// What to do after `event`, when `draining` or not.
pub open spec fn action_after<M>(draining: bool, event: Event<M>) -> Action<M> {
    match event {
        Event::Incoming(message) => Action::Deliver(message),
        Event::Outgoing(Some(message)) => Action::Send(message),
        Event::Outgoing(None) => Action::Stop,
        Event::Flush => Action::Poll,
        Event::Delivered => Action::Wait,
        Event::Sent => if draining {
            Action::Poll
        } else {
            Action::Wait
        },
        Event::Drained => Action::Flush,
        Event::Flushed => Action::Wait,
    }
}

/// Whether messages may be left to be sent before a flush, after `event`.
pub open spec fn draining_after<M>(draining: bool, event: Event<M>) -> bool {
    match event {
        Event::Flush => true,
        Event::Drained => false,
        _ => draining,
    }
}

impl ChannelTask {
    pub closed spec fn draining(&self) -> bool {
        self.draining
    }

    pub fn new() -> (task: Self)
        ensures
            !task.draining(),
    {
        ChannelTask { draining: false }
    }

    /// Decides what to do after something has happened.
    pub fn step<M>(&mut self, event: Event<M>) -> (action: Action<M>)
        ensures
            action == action_after(old(self).draining(), event),
            final(self).draining() == draining_after(old(self).draining(), event),
    {
        match event {
            Event::Incoming(message) => Action::Deliver(message),
            Event::Outgoing(Some(message)) => Action::Send(message),
            Event::Outgoing(None) => Action::Stop,
            Event::Flush => {
                self.draining = true;
                Action::Poll
            },
            Event::Delivered => Action::Wait,
            Event::Sent => if self.draining {
                Action::Poll
            } else {
                Action::Wait
            },
            Event::Drained => {
                self.draining = false;
                Action::Flush
            },
            Event::Flushed => Action::Wait,
        }
    }
}

/// What the task is told when a flush is asked for while `queued` messages are to be sent.
pub open spec fn flush_events<M>(queued: Seq<M>) -> Seq<Event<M>> {
    seq![Event::Flush] + sending_events(queued) + seq![Event::Drained]
}

/// What the task is told while it sends `queued` messages.
pub open spec fn sending_events<M>(queued: Seq<M>) -> Seq<Event<M>> {
    Seq::new(
        2 * queued.len(),
        |i: int|
            if i % 2 == 0 {
                Event::Outgoing(Some(queued[i / 2]))
            } else {
                Event::Sent
            },
    )
}

/// Whether messages may be left to be sent before a flush, after `events`.
pub open spec fn draining_after_all<M>(draining: bool, events: Seq<Event<M>>) -> bool
    decreases events.len(),
{
    if events.len() == 0 {
        draining
    } else {
        draining_after(draining_after_all(draining, events.drop_last()), events.last())
    }
}

/// What the task does when it is told `events`, one after the other.
pub open spec fn actions<M>(events: Seq<Event<M>>) -> Seq<Action<M>>
    decreases events.len(),
{
    if events.len() == 0 {
        Seq::empty()
    } else {
        actions(events.drop_last()).push(
            action_after(draining_after_all(false, events.drop_last()), events.last()),
        )
    }
}

/// No message is lost, held back or made up: whatever the task is told, it answers a message from the network
/// by handing it to the user, and a message to be sent by sending it. It stops exactly if the user is
/// gone, and flushes exactly if there is nothing left to be sent before. Otherwise it looks for one more
/// message to be sent exactly if a flush was asked for that has not been done, and waits if not.
pub proof fn law_task_answers<M>(events: Seq<Event<M>>, i: int)
    requires
        0 <= i < events.len(),
    ensures
        actions(events).len() == events.len(),
        match events[i] {
            Event::Incoming(message) => actions(events)[i] == Action::Deliver(message),
            Event::Outgoing(Some(message)) => actions(events)[i] == Action::Send(message),
            Event::Outgoing(None) => actions(events)[i] is Stop,
            Event::Flush => actions(events)[i] is Poll,
            Event::Drained => actions(events)[i] is Flush,
            Event::Delivered => actions(events)[i] is Wait,
            Event::Flushed => actions(events)[i] is Wait,
            Event::Sent => {
                let asked = exists|k: int|
                    0 <= k < i && #[trigger] events[k] is Flush && forall|l: int|
                        k < l < i ==> !(#[trigger] events[l] is Drained);
                &&& asked ==> actions(events)[i] is Poll
                &&& !asked ==> actions(events)[i] is Wait
            },
        },
    decreases events.len(),
{
    let last = events.len() - 1;
    let earlier = events.drop_last();
    lemma_actions_len(events);
    lemma_actions_len(earlier);
    if i < last {
        law_task_answers(earlier, i);
        assert(events[i] == earlier[i]);
        assert(actions(events)[i] == actions(earlier)[i]);
        assert forall|k: int| 0 <= k < last implies #[trigger] events[k] == earlier[k] by {
        }
        if events[i] is Sent {
            if exists|k: int|
                0 <= k < i && #[trigger] events[k] is Flush && forall|l: int|
                    k < l < i ==> !(#[trigger] events[l] is Drained) {
                let k = choose|k: int|
                    0 <= k < i && #[trigger] events[k] is Flush && forall|l: int|
                        k < l < i ==> !(#[trigger] events[l] is Drained);
                assert(earlier[k] is Flush);
                assert forall|l: int| k < l < i implies !(#[trigger] earlier[l] is Drained) by {
                    assert(!(events[l] is Drained));
                }
            } else if exists|k: int|
                0 <= k < i && #[trigger] earlier[k] is Flush && forall|l: int|
                    k < l < i ==> !(#[trigger] earlier[l] is Drained) {
                let k = choose|k: int|
                    0 <= k < i && #[trigger] earlier[k] is Flush && forall|l: int|
                        k < l < i ==> !(#[trigger] earlier[l] is Drained);
                assert(events[k] is Flush);
                assert forall|l: int| k < l < i implies !(#[trigger] events[l] is Drained) by {
                    assert(!(earlier[l] is Drained));
                }
            }
        }
    } else {
        lemma_draining(earlier);
        assert forall|k: int| 0 <= k < last implies #[trigger] events[k] == earlier[k] by {
        }
        if draining_after_all(false, earlier) {
            let k = choose|k: int|
                0 <= k < last && #[trigger] earlier[k] is Flush && forall|l: int|
                    k < l < last ==> !(#[trigger] earlier[l] is Drained);
            assert(events[k] is Flush);
            assert forall|l: int| k < l < last implies !(#[trigger] events[l] is Drained) by {
                assert(!(earlier[l] is Drained));
            }
        } else if exists|k: int|
            0 <= k < last && #[trigger] events[k] is Flush && forall|l: int|
                k < l < last ==> !(#[trigger] events[l] is Drained) {
            let k = choose|k: int|
                0 <= k < last && #[trigger] events[k] is Flush && forall|l: int|
                    k < l < last ==> !(#[trigger] events[l] is Drained);
            assert(earlier[k] is Flush);
            assert forall|l: int| k < l < last implies !(#[trigger] earlier[l] is Drained) by {
                assert(!(events[l] is Drained));
            }
        }
    }
}

/// There is an action for each event.
proof fn lemma_actions_len<M>(events: Seq<Event<M>>)
    ensures
        actions(events).len() == events.len(),
    decreases events.len(),
{
    if events.len() > 0 {
        lemma_actions_len(events.drop_last());
    }
}

/// Messages may be left to be sent before a flush exactly if one was asked for and has not been done.
proof fn lemma_draining<M>(events: Seq<Event<M>>)
    ensures
        draining_after_all(false, events) <==> exists|k: int|
            0 <= k < events.len() && #[trigger] events[k] is Flush && forall|l: int|
                k < l < events.len() ==> !(#[trigger] events[l] is Drained),
    decreases events.len(),
{
    if events.len() > 0 {
        let last = events.len() - 1;
        let earlier = events.drop_last();
        lemma_draining(earlier);
        if events[last] is Flush {
            assert(forall|l: int| last < l < events.len() ==> !(#[trigger] events[l] is Drained));
        } else if draining_after_all(false, earlier) && !(events[last] is Drained) {
            let k = choose|k: int|
                0 <= k < earlier.len() && #[trigger] earlier[k] is Flush && forall|l: int|
                    k < l < earlier.len() ==> !(#[trigger] earlier[l] is Drained);
            assert(events[k] is Flush);
            assert forall|l: int| k < l < events.len() implies !(
            #[trigger] events[l] is Drained) by {
                if l < last {
                    assert(!(earlier[l] is Drained));
                }
            }
        }
        if exists|k: int|
            0 <= k < events.len() && #[trigger] events[k] is Flush && forall|l: int|
                k < l < events.len() ==> !(#[trigger] events[l] is Drained) {
            let k = choose|k: int|
                0 <= k < events.len() && #[trigger] events[k] is Flush && forall|l: int|
                    k < l < events.len() ==> !(#[trigger] events[l] is Drained);
            if k < last {
                assert(!(events[last] is Drained));
                assert(earlier[k] is Flush);
                assert forall|l: int| k < l < earlier.len() implies !(
                #[trigger] earlier[l] is Drained) by {
                    assert(!(events[l] is Drained));
                }
            }
        }
    }
}

/// While messages are sent before a flush the task keeps on to the last one.
proof fn lemma_keeps_draining<M>(queued: Seq<M>, n: int)
    requires
        1 <= n <= 1 + 2 * queued.len(),
    ensures
        draining_after_all(false, flush_events(queued).take(n)),
    decreases n,
{
    let events = flush_events(queued).take(n);
    assert(events.drop_last() =~= flush_events(queued).take(n - 1));
    if n > 1 {
        lemma_keeps_draining(queued, n - 1);
        assert(events.last() == sending_events(queued)[n - 2]);
    } else {
        assert(events.last() == Event::<M>::Flush);
    }
}

/// A flush sends everything that was queued before it: after a flush is asked for the task sends the
/// messages that are queued, in order, and then flushes the channel.
pub proof fn law_flush_sends_all<M>(queued: Seq<M>, i: int)
    requires
        0 <= i < queued.len(),
    ensures
        ({
            let events = flush_events(queued);
            let n = 1 + 2 * i;
            let last = events.len() - 1;
            &&& action_after(draining_after_all(false, events.take(n)), events[n]) == Action::Send(
                queued[i],
            )
            &&& action_after(draining_after_all(false, events.take(n + 1)), events[n + 1])
                == Action::<M>::Poll
            &&& action_after(draining_after_all(false, events.take(last)), events[last])
                == Action::<M>::Flush
        }),
{
    let n = 1 + 2 * i;
    let events = flush_events(queued);
    assert(events[n] == sending_events(queued)[2 * i]);
    assert(events[n + 1] == sending_events(queued)[2 * i + 1]);
    assert((2 * i) / 2 == i);
    lemma_keeps_draining(queued, n + 1);
    assert(events[events.len() - 1] == Event::<M>::Drained);
}

} // verus!
