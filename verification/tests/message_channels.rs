use std::collections::VecDeque;

use bincode::Options;
use turbulence::buffer::{BufferPacket, BufferPacketPool, SimpleBufferPool};
use turbulence::channel_builder::ChannelBuilder;
use turbulence::message_channels::{
    open_message_channel, Action, AsyncMessageError, ChannelAlreadyRegistered, ChannelTask, Event,
    MessageChannel, MessageChannelMode, MessageChannelSettings, MessageChannels,
    MessageChannelsBuilder, MessageTypeUnregistered,
};
use turbulence::packet::{Packet, PacketPool, WellFormed};
use turbulence::packet_multiplexer::{
    IncomingMultiplexedPackets, MuxPacket, MuxPacketPool, OutgoingMultiplexedPackets,
    PacketMultiplexer,
};
use turbulence::reliable_bincode_channel::ReliableBincodeChannel;
use turbulence::reliable_channel::round::{Round, Step, WakeReason};
use turbulence::reliable_channel::{self, ReliableChannel};
use turbulence::spsc::{Receiver, Sender, TryRecvError, TrySendError};
use turbulence::unreliable_bincode_channel::UnreliableBincodeChannel;
use turbulence::unreliable_channel::{self, Flush, Outgoing};

type Inner = BufferPacket<Vec<u8>>;
type Pool = BufferPacketPool<SimpleBufferPool>;
type Mux = MuxPacketPool<Pool>;

// Two message types, one on a reliable channel and one on an unreliable channel.
const MESSAGE1: u64 = 1;
const MESSAGE2: u64 = 2;

const MESSAGE1_SETTINGS: MessageChannelSettings = MessageChannelSettings {
    channel: 0,
    channel_mode: MessageChannelMode::Reliable {
        reliability_settings: reliable_channel::Settings {
            bandwidth: 4096,
            burst_bandwidth: 1024,
            recv_window_size: 1024,
            send_window_size: 1024,
            init_send: 512,
        },
        max_message_len: 1024,
    },
    message_buffer_size: 8,
    packet_buffer_size: 8,
};

const MESSAGE2_SETTINGS: MessageChannelSettings = MessageChannelSettings {
    channel: 1,
    channel_mode: MessageChannelMode::Unreliable(unreliable_channel::Settings {
        bandwidth: 4096,
        burst_bandwidth: 1024,
    }),
    message_buffer_size: 8,
    packet_buffer_size: 8,
};

fn serialize(message: i32) -> Vec<u8> {
    bincode::DefaultOptions::new().serialize(&message).unwrap()
}

fn deserialize(bytes: &[u8]) -> i32 {
    bincode::DefaultOptions::new().deserialize(bytes).unwrap()
}

enum Kind {
    Reliable(ReliableBincodeChannel, ReliableChannel<Mux, u64>),
    Unreliable(UnreliableBincodeChannel<Mux>),
}

/// The channel of one message type with the queues around it.
struct Typed {
    message_type: u64,
    kind: Kind,
    task: ChannelTask,
    sender: Sender<MuxPacket<Inner>, WellFormed>,
    receiver: Receiver<MuxPacket<Inner>, WellFormed>,
    outgoing: VecDeque<i32>,
    incoming: VecDeque<i32>,
    flush: bool,
}

impl Typed {
    fn send_packet(sender: &mut Sender<MuxPacket<Inner>, WellFormed>, packet: MuxPacket<Inner>) {
        assert!(sender.try_send(packet).is_ok());
    }

    fn drive_reliable(
        channel: &mut ReliableChannel<Mux, u64>,
        sender: &mut Sender<MuxPacket<Inner>, WellFormed>,
        receiver: &mut Receiver<MuxPacket<Inner>, WellFormed>,
        now: u64,
    ) {
        loop {
            let packet = receiver.try_recv();
            let reason = if packet.is_ok() {
                WakeReason::IncomingPacket
            } else if channel.task.remote_recv_available() > 0
                && channel.shared.send_window.send_available() > 0
            {
                WakeReason::SendAvailable
            } else {
                return;
            };
            let mut round = Round::begin(reason);
            loop {
                let unacked_len = channel.task.unacked_len();
                match round.step(unacked_len) {
                    Step::Receive => {
                        let effects = channel
                            .task
                            .recv_packet(
                                &mut channel.shared,
                                packet.as_ref().unwrap().as_slice(),
                                true,
                                now,
                            )
                            .unwrap();
                        for packet in effects.data.into_iter().chain(effects.ack) {
                            Typed::send_packet(sender, packet);
                        }
                    }
                    Step::Consider(_) => {
                        assert!(!round.considered(unacked_len, true, false));
                    }
                    Step::RestartTimer => {}
                    Step::Send => {
                        if let Some(packet) =
                            channel
                                .task
                                .send(&mut channel.shared.send_window, true, now)
                        {
                            Typed::send_packet(sender, packet);
                        }
                    }
                    Step::Finish => {
                        channel.task.avoid_stall();
                        break;
                    }
                }
            }
        }
    }

    fn recv(&mut self, now: u64) -> Option<i32> {
        match &mut self.kind {
            Kind::Reliable(messages, channel) => {
                Typed::drive_reliable(channel, &mut self.sender, &mut self.receiver, now);
                if messages.poll_recv_ready(channel).unwrap() {
                    Some(deserialize(&messages.recv_next()))
                } else {
                    None
                }
            }
            Kind::Unreliable(messages) => {
                if messages.needs_packet() {
                    match self.receiver.try_recv() {
                        Ok(packet) => messages.recv_packet(Some(packet)).unwrap(),
                        Err(_) => return None,
                    }
                }
                Some(deserialize(messages.next_msg().unwrap()))
            }
        }
    }

    fn flush_channel(&mut self, now: u64) {
        match &mut self.kind {
            Kind::Reliable(messages, channel) => {
                assert!(messages.flush(channel).unwrap());
                Typed::drive_reliable(channel, &mut self.sender, &mut self.receiver, now);
            }
            Kind::Unreliable(messages) => loop {
                match messages.flush(Outgoing::Ready).unwrap() {
                    Flush::Done => return,
                    Flush::Pending => unreachable!(),
                    Flush::Send(packet) => Typed::send_packet(&mut self.sender, packet),
                }
            },
        }
    }

    fn send(&mut self, message: i32) {
        match &mut self.kind {
            Kind::Reliable(messages, channel) => {
                assert!(messages.send(channel, &serialize(message)).unwrap());
            }
            Kind::Unreliable(messages) => {
                while !messages.try_send(serialize(message)).unwrap() {
                    match messages.flush(Outgoing::Ready).unwrap() {
                        Flush::Send(packet) => Typed::send_packet(&mut self.sender, packet),
                        _ => unreachable!(),
                    }
                }
            }
        }
    }

    /// Lets the task work until it has to wait.
    fn run(&mut self, now: u64) {
        loop {
            let mut event = if let Some(message) = self.recv(now) {
                Event::Incoming(message)
            } else if self.flush {
                self.flush = false;
                Event::Flush
            } else if let Some(message) = self.outgoing.pop_front() {
                Event::Outgoing(Some(message))
            } else {
                return;
            };
            loop {
                event = match self.task.step(event) {
                    Action::Wait => break,
                    Action::Deliver(message) => {
                        self.incoming.push_back(message);
                        Event::Delivered
                    }
                    Action::Send(message) => {
                        self.send(message);
                        Event::Sent
                    }
                    Action::Poll => match self.outgoing.pop_front() {
                        Some(message) => Event::Outgoing(Some(message)),
                        None => Event::Drained,
                    },
                    Action::Flush => {
                        self.flush_channel(now);
                        Event::Flushed
                    }
                    Action::Stop => return,
                };
            }
        }
    }
}

/// Message channels with everything behind them.
struct Side {
    channels: MessageChannels,
    typed: Vec<Typed>,
    incoming: IncomingMultiplexedPackets<Inner>,
    outgoing: OutgoingMultiplexedPackets<Inner>,
}

impl Side {
    fn new() -> Side {
        let pool = BufferPacketPool::new(SimpleBufferPool(32));
        let mut multiplexer = PacketMultiplexer::new();
        let mut registry = MessageChannelsBuilder::new();
        registry.register(MESSAGE1, MESSAGE1_SETTINGS).unwrap();
        registry.register(MESSAGE2, MESSAGE2_SETTINGS).unwrap();
        let (channels, registered) = registry.build();
        let builder = ChannelBuilder::new((), pool);
        let mut typed = Vec::new();
        for (message_type, settings) in registered {
            assert!(settings.is_openable(31));
            let (opened, (sender, receiver)) =
                open_message_channel(&builder, &mut multiplexer, &settings).unwrap();
            let kind = match opened {
                MessageChannel::Reliable(messages, channel) => Kind::Reliable(messages, channel),
                MessageChannel::Unreliable(messages) => Kind::Unreliable(messages),
                MessageChannel::Compressed(..) => unreachable!(),
            };
            typed.push(Typed {
                message_type,
                kind,
                task: ChannelTask::new(),
                sender,
                receiver,
                outgoing: VecDeque::new(),
                incoming: VecDeque::new(),
                flush: false,
            });
        }
        let (incoming, outgoing) = multiplexer.start();
        Side {
            channels,
            typed,
            incoming,
            outgoing,
        }
    }

    fn of_type(&mut self, message_type: u64) -> &mut Typed {
        self.typed
            .iter_mut()
            .find(|typed| typed.message_type == message_type)
            .unwrap()
    }

    fn send(&mut self, message_type: u64, message: i32) {
        assert_eq!(self.channels.try_use(message_type), Ok(true));
        self.of_type(message_type).outgoing.push_back(message);
        assert_eq!(self.channels.try_send::<i32>(Ok(())), None);
    }

    fn flush(&mut self, message_type: u64) {
        self.of_type(message_type).flush = true;
    }

    fn recv(&mut self, message_type: u64) -> Option<i32> {
        assert_eq!(self.channels.try_use(message_type), Ok(true));
        let attempt = self
            .of_type(message_type)
            .incoming
            .pop_front()
            .ok_or(TryRecvError::Empty);
        self.channels.try_recv(attempt)
    }

    fn run(&mut self, now: u64) {
        for typed in self.typed.iter_mut() {
            typed.run(now);
        }
    }

    fn transfer(&mut self, other: &mut Side) {
        for receiver in self.outgoing.outgoing.iter_mut() {
            while let Ok(packet) = receiver.try_recv() {
                assert!(other.incoming.try_send(packet).is_ok());
            }
        }
    }
}

fn run_until_received(a: &mut Side, b: &mut Side, now: &mut u64, message_type: u64) -> i32 {
    for _ in 0..100_000 {
        if let Some(message) = b.recv(message_type) {
            return message;
        }
        a.run(*now);
        a.transfer(b);
        b.run(*now);
        b.transfer(a);
        *now += 50;
    }
    panic!("didn't finish in time");
}

#[test]
fn test_message_channels() {
    let mut channels_a = Side::new();
    let mut channels_b = Side::new();
    let a = &mut channels_a;
    let b = &mut channels_b;
    let mut now = 0;

    a.send(MESSAGE1, 42);
    a.flush(MESSAGE1);
    assert_eq!(run_until_received(a, b, &mut now, MESSAGE1), 42);

    a.send(MESSAGE2, 13);
    a.flush(MESSAGE2);
    assert_eq!(run_until_received(a, b, &mut now, MESSAGE2), 13);

    // Each message channel is independent of the others.
    a.send(MESSAGE1, 20);
    a.send(MESSAGE2, 30);
    a.send(MESSAGE1, 21);
    a.send(MESSAGE2, 31);
    a.send(MESSAGE1, 22);
    a.send(MESSAGE2, 32);
    a.flush(MESSAGE1);
    a.flush(MESSAGE2);

    assert_eq!(run_until_received(a, b, &mut now, MESSAGE1), 20);
    assert_eq!(run_until_received(a, b, &mut now, MESSAGE1), 21);
    assert_eq!(run_until_received(a, b, &mut now, MESSAGE1), 22);

    assert_eq!(run_until_received(a, b, &mut now, MESSAGE2), 30);
    assert_eq!(run_until_received(a, b, &mut now, MESSAGE2), 31);
    assert_eq!(run_until_received(a, b, &mut now, MESSAGE2), 32);
}

#[test]
fn types_and_channels_are_registered_once() {
    let mut registry = MessageChannelsBuilder::new();
    let with_channel = |channel: u8| MessageChannelSettings {
        channel,
        ..MESSAGE2_SETTINGS
    };
    assert_eq!(registry.register(5, with_channel(0)), Ok(()));
    assert_eq!(
        registry.register(6, with_channel(0)),
        Err(ChannelAlreadyRegistered::Channel)
    );
    assert_eq!(
        registry.register(5, with_channel(1)),
        Err(ChannelAlreadyRegistered::MessageType)
    );
    // The channel is taken all the same.
    assert_eq!(
        registry.register(6, with_channel(1)),
        Err(ChannelAlreadyRegistered::Channel)
    );
    assert_eq!(registry.register(6, with_channel(2)), Ok(()));
    let (channels, registered) = registry.build();
    assert_eq!(registered, vec![(5, with_channel(0)), (6, with_channel(2))]);
    assert_eq!(channels.try_use(6), Ok(true));
    assert_eq!(channels.try_use(7), Err(MessageTypeUnregistered));
}

#[test]
fn channels_are_opened_in_the_mode_of_their_settings() {
    let reliability_settings = match MESSAGE1_SETTINGS.channel_mode {
        MessageChannelMode::Reliable {
            reliability_settings,
            ..
        } => reliability_settings,
        _ => unreachable!(),
    };
    let compressed = |max_chunk_len| MessageChannelSettings {
        channel: 9,
        channel_mode: MessageChannelMode::Compressed {
            reliability_settings,
            max_chunk_len,
        },
        ..MESSAGE1_SETTINGS
    };
    assert!(MESSAGE2_SETTINGS.is_openable(2));
    assert!(!MESSAGE2_SETTINGS.is_openable(1));
    assert!(MESSAGE1_SETTINGS.is_openable(10));
    assert!(!MESSAGE1_SETTINGS.is_openable(9));
    assert!(compressed(2).is_openable(10));
    assert!(!compressed(1).is_openable(10));

    let builder = ChannelBuilder::new((), BufferPacketPool::new(SimpleBufferPool(32)));
    let mut multiplexer = PacketMultiplexer::new();
    let (opened, _ends) =
        open_message_channel::<_, _, u64>(&builder, &mut multiplexer, &compressed(64)).unwrap();
    assert!(matches!(opened, MessageChannel::Compressed(..)));
    assert!(open_message_channel::<_, _, u64>(&builder, &mut multiplexer, &compressed(64)).is_err());
    let (opened, _ends) =
        open_message_channel::<_, _, u64>(&builder, &mut multiplexer, &MESSAGE2_SETTINGS).unwrap();
    assert!(matches!(opened, MessageChannel::Unreliable(..)));
}

fn connected() -> MessageChannels {
    let mut registry = MessageChannelsBuilder::new();
    registry.register(5, MESSAGE2_SETTINGS).unwrap();
    registry.build().0
}

fn assert_disconnected(channels: MessageChannels) {
    assert!(!channels.is_connected());
    assert_eq!(channels.try_use(5), Ok(false));
    assert_eq!(
        channels.try_async_use(5),
        Err(AsyncMessageError::Disconnected)
    );
    assert_eq!(
        channels.try_async_use(6),
        Err(AsyncMessageError::Unregistered(MessageTypeUnregistered))
    );
}

#[test]
fn a_lost_queue_disconnects_for_good() {
    let mut channels = connected();
    assert!(channels.is_connected());
    assert_eq!(channels.try_async_use(5), Ok(()));
    assert_eq!(channels.try_send(Err(TrySendError::Full(1))), Some(1));
    assert!(channels.is_connected());
    assert_eq!(channels.try_send(Err(TrySendError::Disconnected(2))), Some(2));
    assert_disconnected(channels);

    let mut channels = connected();
    assert_eq!(channels.try_recv(Ok(3)), Some(3));
    assert_eq!(channels.try_recv::<u8>(Err(TryRecvError::Empty)), None);
    assert!(channels.is_connected());
    assert_eq!(channels.try_recv::<u8>(Err(TryRecvError::Disconnected)), None);
    assert_disconnected(channels);

    let mut channels = connected();
    assert_eq!(channels.try_async_send(true), Ok(()));
    assert_eq!(
        channels.try_async_send(false),
        Err(AsyncMessageError::Disconnected)
    );
    assert_disconnected(channels);

    let mut channels = connected();
    assert_eq!(channels.try_async_recv(Some(4)), Ok(4));
    assert_eq!(
        channels.try_async_recv::<u8>(None),
        Err(AsyncMessageError::Disconnected)
    );
    assert_disconnected(channels);
}

#[test]
fn a_flush_sends_all_queued_messages_first() {
    let mut task = ChannelTask::new();
    assert!(matches!(task.step(Event::Outgoing(Some(1))), Action::Send(1)));
    assert!(matches!(task.step(Event::<i32>::Sent), Action::Wait));
    assert!(matches!(task.step(Event::Incoming(2)), Action::Deliver(2)));
    assert!(matches!(task.step(Event::<i32>::Delivered), Action::Wait));
    assert!(matches!(task.step(Event::<i32>::Flush), Action::Poll));
    for message in 3..6 {
        assert!(matches!(
            task.step(Event::Outgoing(Some(message))),
            Action::Send(sent) if sent == message
        ));
        assert!(matches!(task.step(Event::<i32>::Sent), Action::Poll));
    }
    assert!(matches!(task.step(Event::<i32>::Drained), Action::Flush));
    assert!(matches!(task.step(Event::<i32>::Flushed), Action::Wait));
    assert!(matches!(task.step(Event::Outgoing(Some(7))), Action::Send(7)));
    assert!(matches!(task.step(Event::<i32>::Sent), Action::Wait));
    assert!(matches!(task.step(Event::<i32>::Outgoing(None)), Action::Stop));
}

#[test]
fn message_channels_have_the_queues_of_their_settings() {
    let builder = ChannelBuilder::new((), BufferPacketPool::new(SimpleBufferPool(32)));
    for settings in [MESSAGE1_SETTINGS, MESSAGE2_SETTINGS] {
        for packet_buffer_size in [1, 3] {
            let mut pool = MuxPacketPool::new(BufferPacketPool::new(SimpleBufferPool(32)));
            let mut multiplexer = PacketMultiplexer::new();
            let settings = MessageChannelSettings {
                packet_buffer_size,
                ..settings
            };
            let (_, (mut sender, _receiver)) =
                open_message_channel::<_, _, u64>(&builder, &mut multiplexer, &settings).unwrap();
            for _ in 0..packet_buffer_size {
                assert!(sender.try_send(pool.acquire()).is_ok());
            }
            assert!(sender.try_send(pool.acquire()).unwrap_err().is_full());
        }
    }
}
