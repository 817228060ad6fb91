use turbulence::buffer::{BufferPacket, BufferPacketPool, SimpleBufferPool};
use turbulence::channel_builder::ChannelBuilder;
use turbulence::packet::{Packet, PacketPool, WellFormed};
use turbulence::packet_multiplexer::{
    answered, ChannelStatistics, ChannelTotals, DuplicateChannel, IncomingError, IncomingMultiplexedPackets,
    IncomingTrySendError, MuxPacketPool, OutgoingMultiplexedPackets, PacketMultiplexer,
};
use turbulence::reliable_channel;
use turbulence::spsc::{self, TrySendError};

type Inner = BufferPacket<Vec<u8>>;

/// Hands everything that one side sends to the other side.
fn transfer(
    outgoing: &mut OutgoingMultiplexedPackets<Inner>,
    incoming: &mut IncomingMultiplexedPackets<Inner>,
) {
    for receiver in outgoing.outgoing.iter_mut() {
        while let Ok(packet) = receiver.try_recv() {
            assert_eq!(incoming.poll_ready(), Ok(None));
            incoming.start_send(packet);
            assert_eq!(incoming.poll_flush(), Ok(None));
        }
    }
}

#[test]
fn test_multiplexer() {
    let mut packet_pool = MuxPacketPool::new(BufferPacketPool::new(SimpleBufferPool(32)));

    let mut multiplexer_a = PacketMultiplexer::new();
    let (mut sender4a, mut receiver4a) = multiplexer_a.open_channel(4, 8).unwrap();
    let (mut sender32a, mut receiver32a) = multiplexer_a.open_channel(32, 8).unwrap();

    let mut multiplexer_b = PacketMultiplexer::new();
    let (mut sender4b, mut receiver4b) = multiplexer_b.open_channel(4, 8).unwrap();
    let (mut sender32b, mut receiver32b) = multiplexer_b.open_channel(32, 8).unwrap();

    let (mut a_incoming, mut a_outgoing) = multiplexer_a.start();
    let (mut b_incoming, mut b_outgoing) = multiplexer_b.start();

    let mut packet = packet_pool.acquire();
    packet.resize(1, 17);
    assert!(sender4a.try_send(packet).is_ok());

    let mut packet = packet_pool.acquire();
    packet.resize(1, 18);
    assert!(sender4b.try_send(packet).is_ok());

    let mut packet = packet_pool.acquire();
    packet.resize(1, 19);
    assert!(sender32a.try_send(packet).is_ok());

    let mut packet = packet_pool.acquire();
    packet.resize(1, 20);
    assert!(sender32b.try_send(packet).is_ok());

    transfer(&mut a_outgoing, &mut b_incoming);
    transfer(&mut b_outgoing, &mut a_incoming);

    let packet = receiver4a.try_recv().unwrap();
    assert_eq!(packet.as_slice()[0], 18);

    let packet = receiver4b.try_recv().unwrap();
    assert_eq!(packet.as_slice()[0], 17);

    let packet = receiver32a.try_recv().unwrap();
    assert_eq!(packet.as_slice()[0], 20);

    let packet = receiver32b.try_recv().unwrap();
    assert_eq!(packet.as_slice()[0], 19);
}

#[test]
fn channels_are_opened_once() {
    let mut multiplexer: PacketMultiplexer<Inner> = PacketMultiplexer::new();
    assert!(multiplexer.open_channel(7, 1).is_ok());
    assert!(matches!(multiplexer.open_channel(7, 1), Err(DuplicateChannel)));
    assert!(multiplexer.open_channel(8, 1).is_ok());
    let (_, outgoing) = multiplexer.start();
    assert_eq!(outgoing.outgoing.len(), 2);
}

#[test]
fn mux_packets_reserve_the_first_byte() {
    let mut pool = MuxPacketPool::new(BufferPacketPool::new(SimpleBufferPool(4)));
    assert_eq!(pool.capacity(), 3);
    let mut packet = pool.acquire();
    assert_eq!(packet.capacity(), 3);
    assert_eq!(packet.as_slice(), []);
    packet.extend(&[1, 2]);
    packet.resize(3, 9);
    assert_eq!(packet.as_slice(), [1, 2, 9]);
    packet.as_mut_slice()[0] = 5;
    packet.truncate(2);
    assert_eq!(packet.as_slice(), [5, 2]);
    packet.clear();
    assert_eq!(packet.as_slice(), []);

    let pool = MuxPacketPool::from(BufferPacketPool::new(SimpleBufferPool(7)));
    assert_eq!(pool.capacity(), 6);
}

fn packet(bytes: &[u8]) -> Inner {
    let mut packet = BufferPacketPool::new(SimpleBufferPool(8)).acquire();
    packet.extend(bytes);
    packet
}

#[test]
fn packets_are_routed_and_counted() {
    let mut multiplexer = PacketMultiplexer::new();
    let (mut sender, mut receiver) = multiplexer.open_channel(3, 2).unwrap();
    let (mut incoming, mut outgoing) = multiplexer.start();

    assert_eq!(incoming.poll_flush(), Ok(None));
    assert!(incoming.try_send(packet(&[3, 1, 2])).is_ok());
    assert!(incoming.try_send(packet(&[3])).is_ok());
    match incoming.try_send(packet(&[3, 7])) {
        Err(error) => {
            assert!(error.is_full());
            match error {
                IncomingTrySendError::IsFull(packet) => assert_eq!(packet.as_slice(), [3, 7]),
                _ => panic!(),
            }
        }
        Ok(()) => panic!(),
    }
    assert!(matches!(
        incoming.try_send(packet(&[4, 7])),
        Err(IncomingTrySendError::Error(IncomingError::UnknownPacketChannel))
    ));
    assert_eq!(
        incoming.incoming_totals(3),
        Some(ChannelTotals { packets: 2, bytes: 2 })
    );
    assert_eq!(incoming.incoming_totals(4), None);
    assert_eq!(receiver.try_recv().unwrap().as_slice(), [1, 2]);
    assert_eq!(receiver.try_recv().unwrap().as_slice(), []);
    assert!(matches!(receiver.try_recv(), Err(spsc::TryRecvError::Empty)));

    let mut pool = MuxPacketPool::new(BufferPacketPool::new(SimpleBufferPool(8)));
    let mut sent = pool.acquire();
    sent.extend(&[6, 7]);
    assert!(sender.try_send(sent).is_ok());
    let source = &mut outgoing.outgoing[0];
    assert_eq!(source.try_recv().unwrap().as_slice(), [3, 6, 7]);
    assert_eq!(source.outgoing_totals(), ChannelTotals { packets: 1, bytes: 2 });
    assert!(matches!(source.try_recv(), Err(spsc::TryRecvError::Empty)));
    assert_eq!(source.outgoing_totals(), ChannelTotals { packets: 1, bytes: 2 });
    let mut marked = pool.acquire();
    marked.extend(&[9]);
    assert_eq!(source.mark_outgoing(marked).as_slice(), [3, 9]);
    assert_eq!(source.outgoing_totals(), ChannelTotals { packets: 2, bytes: 3 });

    let statistics = ChannelStatistics::new(
        incoming.incoming_totals(3).unwrap(),
        source.outgoing_totals(),
    );
    assert_eq!(statistics.incoming_totals().packets, 2);
    assert_eq!(statistics.outgoing_totals().packets, 2);

    drop(receiver);
    assert!(matches!(
        incoming.try_send(packet(&[3, 7])),
        Err(IncomingTrySendError::Error(IncomingError::ChannelReceiverDropped))
    ));
}

#[test]
fn a_full_channel_blocks_until_it_is_read() {
    let mut multiplexer = PacketMultiplexer::new();
    let (_sender3, mut receiver3) = multiplexer.open_channel(3, 1).unwrap();
    let (_sender5, mut receiver5) = multiplexer.open_channel(5, 1).unwrap();
    let (mut incoming, _outgoing) = multiplexer.start();

    incoming.start_send(packet(&[3, 0]));
    assert_eq!(incoming.poll_flush(), Ok(None));
    incoming.start_send(packet(&[3, 1]));
    assert_eq!(incoming.poll_ready(), Ok(None));
    incoming.start_send(packet(&[3, 2]));
    assert_eq!(incoming.poll_ready(), Ok(Some(3)));
    assert_eq!(incoming.poll_flush(), Ok(Some(3)));
    assert_eq!(receiver3.try_recv().unwrap().as_slice(), [0]);
    assert_eq!(incoming.poll_flush(), Ok(Some(3)));
    assert_eq!(receiver3.try_recv().unwrap().as_slice(), [1]);
    assert_eq!(incoming.poll_flush(), Ok(None));
    assert_eq!(receiver3.try_recv().unwrap().as_slice(), [2]);

    incoming.start_send(packet(&[5, 8]));
    assert_eq!(incoming.poll_flush(), Ok(None));
    assert_eq!(receiver5.try_recv().unwrap().as_slice(), [8]);

    incoming.start_send(packet(&[9, 8]));
    assert_eq!(incoming.poll_ready(), Err(IncomingError::UnknownPacketChannel));
    assert_eq!(incoming.poll_ready(), Ok(None));

    drop(receiver5);
    incoming.start_send(packet(&[5, 8]));
    assert_eq!(
        incoming.poll_flush(),
        Err(IncomingError::ChannelReceiverDropped)
    );
}

#[test]
fn spsc_items_keep_their_order() {
    let (mut sender, mut receiver) = spsc::channel(2);
    assert_eq!(sender.try_send(1), Ok(()));
    assert_eq!(sender.poll_ready(), Ok(true));
    sender.start_send(2);
    assert_eq!(sender.try_send(3), Err(spsc::TrySendError::Full(3)));
    assert_eq!(sender.try_send(3).unwrap_err().into_inner(), 3);
    assert_eq!(receiver.try_recv(), Ok(1));
    sender.start_send(3);
    assert_eq!(sender.poll_ready(), Ok(true));
    sender.start_send(4);
    assert_eq!(sender.poll_ready(), Ok(false));
    assert_eq!(receiver.try_recv(), Ok(2));
    assert_eq!(sender.poll_ready(), Ok(true));
    assert_eq!(receiver.try_recv(), Ok(3));
    assert_eq!(receiver.try_recv(), Ok(4));
    assert_eq!(receiver.try_recv(), Err(spsc::TryRecvError::Empty));
    sender.start_send(5);
    drop(receiver);
    assert_eq!(sender.try_send(6), Err(spsc::TrySendError::Disconnected(6)));
    assert_eq!(sender.poll_ready(), Err(spsc::Disconnected));
    assert_eq!(sender.poll_ready(), Ok(true));

    let (sender, mut receiver) = spsc::channel::<u8>(1);
    drop(sender);
    assert_eq!(receiver.try_recv(), Err(spsc::TryRecvError::Disconnected));
}

#[test]
fn packets_of_a_conditional_queue_are_received() {
    let mut pool = BufferPacketPool::new(SimpleBufferPool(8));
    let (mut sender, mut receiver) = spsc::conditional_channel::<Inner, WellFormed>(2);
    let mut packet = pool.acquire();
    packet.extend(&[1, 2]);
    assert!(sender.try_send(packet).is_ok());
    assert_eq!(sender.poll_ready(), Ok(true));
    let mut packet = pool.acquire();
    packet.extend(&[3]);
    sender.start_send(packet);
    assert_eq!(sender.poll_ready(), Ok(true));
    assert_eq!(receiver.try_recv().unwrap().as_slice(), [1, 2]);
    assert_eq!(receiver.try_recv().unwrap().as_slice(), [3]);
    assert!(matches!(receiver.try_recv(), Err(spsc::TryRecvError::Empty)));
}

#[test]
fn channel_builder_opens_channels() {
    let settings = reliable_channel::Settings {
        bandwidth: 4096,
        burst_bandwidth: 1024,
        recv_window_size: 64,
        send_window_size: 32,
        init_send: 512,
    };
    let builder = ChannelBuilder::new((), BufferPacketPool::new(SimpleBufferPool(32)));
    let mut multiplexer = PacketMultiplexer::new();
    let (unreliable, _) = builder
        .open_unreliable_channel(&mut multiplexer, 0, 8)
        .unwrap();
    assert_eq!(unreliable.max_message_len(), 29);
    assert!(builder
        .open_unreliable_bincode_channel(&mut multiplexer, 0, 8)
        .is_err());
    assert!(builder
        .open_unreliable_bincode_channel(&mut multiplexer, 1, 8)
        .is_ok());
    let (mut reliable, _) = builder
        .open_reliable_channel::<u64>(&mut multiplexer, 2, 8, &settings)
        .unwrap();
    assert_eq!(reliable.write(&[0; 40]), Ok(32));
    assert!(builder
        .open_reliable_bincode_channel::<u64>(&mut multiplexer, 3, 8, &settings, 1024)
        .is_ok());
    assert!(builder
        .open_compressed_bincode_channel::<u64>(&mut multiplexer, 4, 8, &settings)
        .is_ok());
    assert!(builder
        .open_compressed_typed_channel::<u64>(&mut multiplexer, 5, 8, &settings, 1024)
        .is_ok());
    assert!(builder
        .open_compressed_typed_channel::<u64>(&mut multiplexer, 5, 8, &settings, 1024)
        .is_err());
    let (_, outgoing) = multiplexer.start();
    assert_eq!(outgoing.outgoing.len(), 6);
}

#[test]
fn the_answer_of_a_queue_is_passed_on() {
    assert_eq!(spsc::settled::<u8>(Ok(())), (None, Ok(true)));
    assert_eq!(spsc::settled(Err(TrySendError::Full(4))), (Some(4), Ok(false)));
    assert_eq!(
        spsc::settled(Err(TrySendError::Disconnected(4))),
        (None, Err(spsc::Disconnected))
    );
    assert_eq!(spsc::passed(Ok(()), 5), (None, Ok(5)));
    assert_eq!(spsc::passed(Err(TrySendError::Full(4)), 5), (Some(4), Err(TrySendError::Full(5))));
    assert_eq!(
        spsc::passed(Err(TrySendError::Disconnected(4)), 5),
        (Some(4), Err(TrySendError::Disconnected(5)))
    );

    let mut pool = MuxPacketPool::new(BufferPacketPool::new(SimpleBufferPool(4)));
    assert!(answered::<Inner>(Ok(())).is_ok());
    let mut refused = pool.acquire();
    refused.extend(&[6]);
    match answered(Err(TrySendError::Full(refused))) {
        Err(IncomingTrySendError::IsFull(packet)) => assert_eq!(packet.as_slice(), [0, 6]),
        _ => panic!(),
    }
    assert!(matches!(
        answered(Err(TrySendError::Disconnected(pool.acquire()))),
        Err(IncomingTrySendError::Error(IncomingError::ChannelReceiverDropped))
    ));
}

#[test]
fn each_channel_has_its_own_queues() {
    let mut pool = MuxPacketPool::new(BufferPacketPool::new(SimpleBufferPool(8)));
    let mut multiplexer = PacketMultiplexer::new();
    let (mut sender4, mut receiver4) = multiplexer.open_channel(4, 2).unwrap();
    let (mut sender5, mut receiver5) = multiplexer.open_channel(5, 2).unwrap();
    let (mut incoming, mut outgoing) = multiplexer.start();

    let mut sent = pool.acquire();
    sent.extend(&[1]);
    assert!(sender5.try_send(sent).is_ok());
    assert!(receiver4.try_recv().is_err());
    assert!(receiver5.try_recv().is_err());
    assert!(outgoing.outgoing[0].try_recv().is_err());
    assert_eq!(outgoing.outgoing[1].try_recv().unwrap().as_slice(), [5, 1]);
    assert!(incoming.try_send(packet(&[4, 2])).is_ok());
    assert!(receiver5.try_recv().is_err());
    assert_eq!(receiver4.try_recv().unwrap().as_slice(), [2]);
    drop(outgoing);
    let mut sent = pool.acquire();
    sent.extend(&[3]);
    assert!(matches!(
        sender4.try_send(sent),
        Err(spsc::TrySendError::Disconnected(_))
    ));
}

#[test]
fn only_packets_that_enter_a_channel_are_counted() {
    let mut multiplexer = PacketMultiplexer::new();
    let (_sender3, mut receiver3) = multiplexer.open_channel(3, 1).unwrap();
    let (_sender5, receiver5) = multiplexer.open_channel(5, 1).unwrap();
    let (mut incoming, _outgoing) = multiplexer.start();
    let totals = |packets, bytes| Some(ChannelTotals { packets, bytes });

    assert!(incoming.try_send(packet(&[3, 1, 1])).is_ok());
    assert!(incoming.try_send(packet(&[3, 2, 2, 2])).is_err());
    assert!(incoming.try_send(packet(&[7, 2])).is_err());
    assert!(incoming.try_send(packet(&[5])).is_ok());
    assert_eq!(incoming.incoming_totals(3), totals(1, 2));
    incoming.start_send(packet(&[3, 4, 4, 4]));
    assert_eq!(incoming.incoming_totals(3), totals(1, 2));
    assert_eq!(incoming.poll_flush(), Ok(Some(3)));
    assert_eq!(incoming.incoming_totals(3), totals(2, 5));
    incoming.start_send(packet(&[3, 6]));
    assert_eq!(incoming.poll_ready(), Ok(Some(3)));
    assert_eq!(incoming.incoming_totals(3), totals(2, 5));

    // The receiver of channel 5 is gone, so its packet is lost, but none of channel 3 is.
    assert_eq!(receiver3.try_recv().unwrap().as_slice(), [1, 1]);
    assert_eq!(incoming.poll_ready(), Ok(None));
    assert_eq!(incoming.incoming_totals(3), totals(3, 6));
    incoming.start_send(packet(&[5, 9]));
    drop(receiver5);
    assert_eq!(incoming.poll_ready(), Ok(None));
    assert_eq!(incoming.incoming_totals(5), totals(2, 1));
    assert_eq!(receiver3.try_recv().unwrap().as_slice(), [4, 4, 4]);
    assert_eq!(
        incoming.poll_flush(),
        Err(IncomingError::ChannelReceiverDropped)
    );
    assert_eq!(incoming.poll_flush(), Ok(None));
    assert_eq!(receiver3.try_recv().unwrap().as_slice(), [6]);
}

#[test]
fn resizing_leaves_the_reserved_byte() {
    let mut multiplexer = PacketMultiplexer::new();
    let (mut sender, mut receiver) = multiplexer.open_channel(3, 2).unwrap();
    let (mut incoming, mut outgoing) = multiplexer.start();
    assert!(incoming.try_send(packet(&[3, 1])).is_ok());
    let mut taken = receiver.try_recv().unwrap();
    assert_eq!(taken.capacity(), 7);
    taken.resize(3, 4);
    assert_eq!(taken.as_slice(), [1, 4, 4]);
    taken.clear();
    taken.resize(2, 5);
    assert_eq!(taken.as_slice(), [5, 5]);
    match answered(Err(spsc::TrySendError::Full(taken))) {
        Err(IncomingTrySendError::IsFull(packet)) => assert_eq!(packet.as_slice(), [3, 5, 5]),
        _ => panic!(),
    }
    let mut pool = MuxPacketPool::new(BufferPacketPool::new(SimpleBufferPool(8)));
    assert!(sender.try_send(pool.acquire()).is_ok());
    assert_eq!(outgoing.outgoing[0].try_recv().unwrap().as_slice(), [3]);
}

#[test]
fn a_queue_has_room_for_its_capacity() {
    for capacity in 1..5 {
        let (mut sender, mut receiver) = spsc::channel(capacity);
        for item in 0..capacity {
            assert_eq!(sender.try_send(item), Ok(()));
        }
        assert_eq!(sender.try_send(9), Err(TrySendError::Full(9)));
        assert_eq!(receiver.try_recv(), Ok(0));
        assert_eq!(sender.try_send(9), Ok(()));
    }

    let mut pool = MuxPacketPool::new(BufferPacketPool::new(SimpleBufferPool(8)));
    let mut multiplexer = PacketMultiplexer::new();
    let (mut sender, _receiver) = multiplexer.open_channel(3, 2).unwrap();
    let (mut incoming, _outgoing) = multiplexer.start();
    assert!(sender.try_send(pool.acquire()).is_ok());
    assert!(sender.try_send(pool.acquire()).is_ok());
    assert!(matches!(
        sender.try_send(pool.acquire()),
        Err(TrySendError::Full(_))
    ));
    assert!(incoming.try_send(packet(&[3, 1])).is_ok());
    assert!(incoming.try_send(packet(&[3, 2])).is_ok());
    assert!(incoming.try_send(packet(&[3, 3])).unwrap_err().is_full());
}
