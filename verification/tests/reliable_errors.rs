use turbulence::buffer::{BufferPacketPool, SimpleBufferPool};
use turbulence::compressed_bincode_channel::{self, CompressedBincodeChannel};
use turbulence::compressed_typed_channel::{self, CompressedTypedChannel};
use turbulence::packet::Packet;
use turbulence::reliable_bincode_channel::{self, ReliableBincodeChannel};
use turbulence::reliable_channel::round::{wake_reason, Round, Situation, Step, WakeReason};
use turbulence::reliable_channel::{Error, ReliableChannel, Settings};

type Channel = ReliableChannel<BufferPacketPool<SimpleBufferPool>, u64>;

const SETTINGS: Settings = Settings {
    bandwidth: 1000,
    burst_bandwidth: 1000,
    recv_window_size: 300,
    send_window_size: 300,
    init_send: 200,
};

fn channel() -> Channel {
    ReliableChannel::new(BufferPacketPool::new(SimpleBufferPool(500)), &SETTINGS)
}

/// Hands `bytes` to a channel as the next part of its stream.
fn arrive(channel: &mut Channel, start: &mut u32, bytes: &[u8]) {
    let mut packet = vec![bytes.len() as u8, 0];
    packet.extend_from_slice(&start.to_le_bytes());
    packet.extend_from_slice(bytes);
    let effects = channel
        .task
        .recv_packet(&mut channel.shared, &packet, true, 0)
        .unwrap();
    assert!(effects.data.is_none());
    let ack = effects.ack.unwrap();
    assert_eq!(ack.as_slice()[0..2], (-(bytes.len() as i16)).to_le_bytes());
    assert_eq!(ack.as_slice()[2..6], start.to_le_bytes());
    *start += bytes.len() as u32;
}

fn protocol_error(packet: &[u8]) -> bool {
    let mut channel = channel();
    let result = channel
        .task
        .recv_packet(&mut channel.shared, packet, true, 0);
    matches!(result, Err(Error::ProtocolError))
}

#[test]
fn settings_are_checked() {
    assert!(SETTINGS.is_valid());
    let invalid = [
        Settings { bandwidth: 0, ..SETTINGS },
        Settings { burst_bandwidth: 0, ..SETTINGS },
        Settings { recv_window_size: 0, ..SETTINGS },
        Settings { recv_window_size: u32::MAX, ..SETTINGS },
        Settings { send_window_size: 0, ..SETTINGS },
        Settings { send_window_size: u32::MAX, ..SETTINGS },
        Settings { init_send: 0, ..SETTINGS },
    ];
    for settings in invalid {
        assert!(!settings.is_valid());
    }
}

#[test]
fn malformed_packets_violate_the_protocol() {
    assert!(protocol_error(&[]));
    assert!(protocol_error(&[1]));
    assert!(protocol_error(&[1, 0, 0, 0, 0]));
    assert!(protocol_error(&[2, 0, 0, 0, 0, 0, 7]));
    assert!(protocol_error(&[255, 255, 0, 0, 0, 0, 0, 0, 0]));
    assert!(protocol_error(&[255, 255, 0, 0, 0, 0, 0, 0, 0, 0, 0]));
    assert!(!protocol_error(&[1, 0, 0, 0, 0, 0, 7]));
    assert!(!protocol_error(&[255, 255, 0, 0, 0, 0, 0, 0, 0, 0]));
    assert!(!protocol_error(&[0, 128, 0, 0, 0, 0, 0, 0, 0, 0]));
}

#[test]
fn data_is_sent_resent_and_acknowledged() {
    let mut channel = channel();
    let data: Vec<u8> = (0..250).map(|i| i as u8).collect();
    assert_eq!(channel.write(&data), Ok(250));
    assert_eq!(channel.write(&data), Ok(50));
    assert_eq!(channel.write(&data), Ok(0));
    assert!(channel
        .task
        .send(&mut channel.shared.send_window, false, 3)
        .is_none());
    let packet = channel
        .task
        .send(&mut channel.shared.send_window, true, 3)
        .unwrap();
    assert_eq!(packet.as_slice()[0..6], [200, 0, 0, 0, 0, 0]);
    assert_eq!(packet.as_slice()[6..], data[0..200]);
    // The remote is not believed to be able to receive more.
    assert_eq!(channel.task.remote_recv_available(), 0);
    assert!(channel
        .task
        .send(&mut channel.shared.send_window, true, 3)
        .is_none());
    assert_eq!(channel.task.unacked_len(), 1);
    let range = channel.task.unacked_range(0);
    assert_eq!((range.start, range.end), (0, 200));
    assert_eq!((range.last_sent, range.retransmit), (Some(3), false));

    // The first half is acknowledged, which opens the window of the remote and tells the round
    // trip time.
    let ack = [(-100i16).to_le_bytes().to_vec(), vec![0; 4], vec![0x90, 1, 0, 0]].concat();
    let effects = channel
        .task
        .recv_packet(&mut channel.shared, &ack, true, 8)
        .unwrap();
    assert_eq!(effects.timed_by, Some(3));
    assert!(effects.wake_writer);
    assert_eq!(effects.data.unwrap().as_slice()[0..6], [100, 0, 200, 0, 0, 0]);
    assert!(effects.ack.is_none());
    assert_eq!(channel.task.unacked_len(), 2);
    let range = channel.task.unacked_range(0);
    assert_eq!((range.start, range.end), (100, 200));
    assert_eq!((range.last_sent, range.retransmit), (None, true));
    let resent = channel.task.resend(&channel.shared.send_window, 0, 9);
    assert_eq!(resent.as_slice()[0..6], [100, 0, 100, 0, 0, 0]);
    assert_eq!(resent.as_slice()[6..], data[100..200]);
    assert_eq!(channel.task.unacked_range(0).last_sent, Some(9));

    // What was sent again does not tell the round trip time.
    let ack = [(-100i16).to_le_bytes().to_vec(), vec![100, 0, 0, 0], vec![0; 4]].concat();
    let effects = channel
        .task
        .recv_packet(&mut channel.shared, &ack, true, 10)
        .unwrap();
    assert_eq!(effects.timed_by, None);
    assert_eq!(channel.task.unacked_len(), 1);
    assert_eq!(channel.task.unacked_range(0).start, 200);
}

#[test]
fn what_is_lost_is_sent_again_and_arrives_in_order() {
    let mut sending = channel();
    let mut receiving = channel();
    let data: Vec<u8> = (0..200).map(|i| i as u8).collect();
    let mut buffer = [0; 300];
    let mut packets = Vec::new();
    for part in data.chunks(50) {
        assert_eq!(sending.write(part), Ok(50));
        let packet = sending
            .task
            .send(&mut sending.shared.send_window, true, 1)
            .unwrap();
        packets.push(packet.as_slice().to_vec());
    }

    // The first packet is lost, and the others arrive in the wrong order, one of them twice.
    let mut acks = Vec::new();
    for i in [3, 1, 3, 2] {
        let effects = receiving
            .task
            .recv_packet(&mut receiving.shared, &packets[i], true, 2)
            .unwrap();
        assert!(!effects.wake_reader);
        acks.push(effects.ack.unwrap().as_slice().to_vec());
    }
    assert_eq!(receiving.read(&mut buffer), Ok(0));
    for ack in acks {
        let effects = sending
            .task
            .recv_packet(&mut sending.shared, &ack, true, 3)
            .unwrap();
        assert!(effects.data.is_none());
    }
    assert_eq!(sending.task.unacked_len(), 1);
    assert_eq!(sending.task.unacked_range(0).end, 50);
    // Nothing that was sent after what is lost is given up.
    assert_eq!(sending.shared.send_window.write_available(), 100);

    let resent = sending.task.resend(&sending.shared.send_window, 0, 4);
    assert_eq!(resent.as_slice(), packets[0].as_slice());
    let effects = receiving
        .task
        .recv_packet(&mut receiving.shared, resent.as_slice(), true, 5)
        .unwrap();
    assert!(effects.wake_reader);
    assert_eq!(receiving.read(&mut buffer), Ok(200));
    assert_eq!(buffer[0..200], data);
    let ack = effects.ack.unwrap();
    sending
        .task
        .recv_packet(&mut sending.shared, ack.as_slice(), true, 6)
        .unwrap();
    assert_eq!(sending.task.unacked_len(), 0);
    assert_eq!(sending.shared.send_window.write_available(), 300);

    // What arrives once more is acknowledged once more, and not read again.
    let effects = receiving
        .task
        .recv_packet(&mut receiving.shared, &packets[1], true, 7)
        .unwrap();
    assert!(effects.ack.is_some());
    assert_eq!(receiving.read(&mut buffer), Ok(0));
}

#[test]
fn a_connection_without_unacked_data_does_not_stall() {
    let mut channel = channel();
    assert_eq!(channel.write(&[1; 200]), Ok(200));
    assert!(channel
        .task
        .send(&mut channel.shared.send_window, true, 0)
        .is_some());
    channel.task.avoid_stall();
    assert_eq!(channel.task.remote_recv_available(), 0);
    let ack = [(-200i16).to_le_bytes().to_vec(), vec![0; 4], vec![200, 0, 0, 0]].concat();
    assert!(channel
        .task
        .recv_packet(&mut channel.shared, &ack, true, 0)
        .is_ok());
    assert_eq!(channel.task.unacked_len(), 0);
    assert_eq!(channel.task.remote_recv_available(), 0);
    channel.task.avoid_stall();
    assert_eq!(channel.task.remote_recv_available(), 200);
}

#[test]
fn errors_are_reported_once_and_shut_down() {
    let mut channel = channel();
    let mut buffer = [0; 4];
    assert_eq!(channel.read(&mut buffer), Ok(0));
    channel.fail(Error::Disconnected);
    channel.fail(Error::ProtocolError);
    assert_eq!(channel.flush(), Ok(()));
    assert_eq!(channel.write(&[1]), Err(Error::Disconnected));
    assert_eq!(channel.flush(), Err(Error::Shutdown));
    assert_eq!(channel.write(&[1]), Err(Error::Shutdown));
    assert_eq!(channel.read(&mut buffer), Err(Error::Shutdown));
}

#[test]
fn a_channel_wakes_up_for_what_it_can_do() {
    let idle = Situation {
        incoming_packet: false,
        timer_elapsed: false,
        bandwidth_available: true,
        remote_recv_available: 5,
        send_available: 0,
    };
    let data = Situation { send_available: 3, ..idle };
    let timer = Situation { timer_elapsed: true, ..data };
    let packet = Situation { incoming_packet: true, ..timer };
    assert_eq!(wake_reason(idle), None);
    assert_eq!(wake_reason(data), Some(WakeReason::SendAvailable));
    assert_eq!(wake_reason(timer), Some(WakeReason::ResendTimer));
    assert_eq!(wake_reason(packet), Some(WakeReason::IncomingPacket));
    let no_room = Situation { remote_recv_available: 0, ..data };
    assert_eq!(wake_reason(no_room), None);
    let no_bandwidth = Situation { bandwidth_available: false, ..timer };
    assert_eq!(wake_reason(no_bandwidth), None);
    let no_bandwidth = Situation { bandwidth_available: false, ..packet };
    assert_eq!(wake_reason(no_bandwidth), Some(WakeReason::IncomingPacket));
}

#[test]
fn a_round_resends_before_it_sends() {
    let mut round = Round::begin(WakeReason::SendAvailable);
    assert_eq!(round.step(2), Step::Consider(0));
    assert!(round.considered(2, true, true));
    assert_eq!(round.step(2), Step::Consider(1));
    assert!(!round.considered(2, true, false));
    assert_eq!(round.step(2), Step::RestartTimer);
    assert_eq!(round.step(2), Step::Send);
    assert_eq!(round.step(2), Step::Finish);
    assert_eq!(round.step(2), Step::Finish);

    // Without bandwidth the other ranges are left for later.
    let mut round = Round::begin(WakeReason::ResendTimer);
    assert_eq!(round.step(2), Step::Consider(0));
    assert!(!round.considered(2, false, true));
    assert_eq!(round.step(2), Step::RestartTimer);
    assert_eq!(round.step(2), Step::Finish);

    let mut round = Round::begin(WakeReason::IncomingPacket);
    assert_eq!(round.step(2), Step::Receive);
    assert_eq!(round.step(2), Step::Finish);
}

#[test]
fn reliable_messages_have_a_length_prefix() {
    let mut sender = ReliableBincodeChannel::new(4);
    let mut sending = channel();
    assert_eq!(
        sender.send(&mut sending, &[1; 5]),
        Err(reliable_bincode_channel::SendError::SizeLimit)
    );
    assert_eq!(sender.send(&mut sending, &[1, 2, 3, 4]), Ok(true));
    assert_eq!(sender.send(&mut sending, &[]), Ok(true));
    assert_eq!(sender.flush(&mut sending), Ok(true));
    let packet = sending
        .task
        .send(&mut sending.shared.send_window, true, 0)
        .unwrap();
    assert_eq!(packet.as_slice()[6..], [4, 0, 1, 2, 3, 4, 0, 0]);

    let mut receiver = ReliableBincodeChannel::new(4);
    let mut receiving = channel();
    let mut start = 0;
    arrive(&mut receiving, &mut start, &[4, 0, 1]);
    assert_eq!(receiver.poll_recv_ready(&mut receiving), Ok(false));
    arrive(&mut receiving, &mut start, &[2, 3, 4, 0]);
    assert_eq!(receiver.poll_recv_ready(&mut receiving), Ok(true));
    assert_eq!(receiver.recv_next(), [1, 2, 3, 4]);
    assert_eq!(receiver.poll_recv_ready(&mut receiving), Ok(false));
    arrive(&mut receiving, &mut start, &[0]);
    assert_eq!(receiver.poll_recv_ready(&mut receiving), Ok(true));
    assert_eq!(receiver.recv_next(), []);
    arrive(&mut receiving, &mut start, &[5, 0]);
    assert_eq!(
        receiver.poll_recv_ready(&mut receiving),
        Err(reliable_bincode_channel::RecvError::PrefixTooLarge)
    );

    sending.fail(Error::ProtocolError);
    assert_eq!(
        sender.send(&mut sending, &[1]).map(|_| ()),
        Ok(()),
    );
    assert_eq!(sender.flush(&mut sending), Err(Error::ProtocolError));
    assert_eq!(
        sender.send(&mut sending, &[1]),
        Err(reliable_bincode_channel::SendError::ReliableChannelError(Error::Shutdown))
    );
    receiving.fail(Error::Disconnected);
    let mut other = ReliableBincodeChannel::new(4);
    assert_eq!(
        other.poll_recv_ready(&mut receiving),
        Err(reliable_bincode_channel::RecvError::ReliableChannelError(Error::Disconnected))
    );
}

#[test]
fn a_full_channel_takes_messages_later() {
    let mut messages = ReliableBincodeChannel::new(400);
    let mut channel = channel();
    assert_eq!(messages.send(&mut channel, &[7; 400]), Ok(true));
    assert_eq!(messages.poll_send_ready(&mut channel), Ok(false));
    assert_eq!(messages.send(&mut channel, &[8]), Ok(false));
    assert_eq!(messages.flush(&mut channel), Ok(false));
    assert!(channel
        .task
        .send(&mut channel.shared.send_window, true, 0)
        .is_some());
    let ack = [(-200i16).to_le_bytes().to_vec(), vec![0; 4], vec![0; 4]].concat();
    assert!(channel
        .task
        .recv_packet(&mut channel.shared, &ack, true, 0)
        .is_ok());
    assert_eq!(messages.flush(&mut channel), Ok(true));
    assert_eq!(messages.send(&mut channel, &[8]), Ok(true));
}

/// What a channel transmits in its first packet.
fn transmitted(channel: &mut Channel) -> Vec<u8> {
    let packet = channel
        .task
        .send(&mut channel.shared.send_window, true, 0)
        .unwrap();
    packet.as_slice()[6..].to_vec()
}

#[test]
fn chunks_are_compressed_where_that_helps() {
    let mut messages = CompressedBincodeChannel::new();
    let mut sending = channel();
    assert_eq!(messages.send(&mut sending, &[9; 100]), Ok(true));
    assert_eq!(messages.send(&mut sending, &[9; 100]), Ok(true));
    assert_eq!(messages.flush(&mut sending), Ok(true));
    let bytes = transmitted(&mut sending);
    assert_eq!(bytes[0], 1);
    assert_eq!(u16::from_le_bytes([bytes[1], bytes[2]]) as usize, bytes.len() - 3);
    assert!(bytes.len() < 50);

    let mut messages = CompressedBincodeChannel::new();
    let mut sending = channel();
    assert_eq!(messages.send(&mut sending, &[1, 2, 3]), Ok(true));
    assert_eq!(messages.flush(&mut sending), Ok(true));
    assert_eq!(transmitted(&mut sending), [0, 3, 0, 1, 2, 3]);

    // The other kind of channel transmits one less than the length.
    let mut messages = CompressedTypedChannel::new(8);
    let mut sending = channel();
    assert_eq!(messages.send(&mut sending, &[1, 2, 3]), Ok(true));
    assert_eq!(messages.send(&mut sending, &[4; 5]), Ok(true));
    // This message does not fit in the chunk any more.
    assert_eq!(messages.send(&mut sending, &[5]), Ok(true));
    assert_eq!(messages.flush(&mut sending), Ok(true));
    assert_eq!(
        transmitted(&mut sending),
        [0, 7, 0, 1, 2, 3, 4, 4, 4, 4, 4, 0, 0, 0, 5]
    );
    assert_eq!(
        messages.send(&mut sending, &[0; 9]),
        Err(compressed_typed_channel::Error::SizeLimit)
    );
    assert_eq!(
        CompressedBincodeChannel::new().send(&mut sending, &[0; 65536]),
        Err(compressed_bincode_channel::SendError::SizeLimit)
    );
}

#[test]
fn chunks_are_received_piece_by_piece() {
    let mut sender = CompressedBincodeChannel::new();
    let mut sending = channel();
    assert_eq!(sender.send(&mut sending, &[9; 100]), Ok(true));
    assert_eq!(sender.flush(&mut sending), Ok(true));
    let bytes = transmitted(&mut sending);

    let mut receiver = CompressedBincodeChannel::new();
    let mut receiving = channel();
    let mut start = 0;
    // An empty chunk holds no message and is passed over.
    arrive(&mut receiving, &mut start, &[0, 0, 0]);
    assert_eq!(receiver.poll_recv_ready(&mut receiving), Ok(false));
    arrive(&mut receiving, &mut start, &bytes[0..2]);
    assert_eq!(receiver.poll_recv_ready(&mut receiving), Ok(false));
    arrive(&mut receiving, &mut start, &bytes[2..4]);
    assert_eq!(receiver.poll_recv_ready(&mut receiving), Ok(false));
    arrive(&mut receiving, &mut start, &bytes[4..]);
    assert_eq!(receiver.poll_recv_ready(&mut receiving), Ok(true));
    assert_eq!(receiver.peek(), [9; 100]);
    receiver.recv_next(60);
    assert_eq!(receiver.poll_recv_ready(&mut receiving), Ok(true));
    assert_eq!(receiver.peek(), [9; 40]);
    receiver.recv_next(40);
    assert_eq!(receiver.poll_recv_ready(&mut receiving), Ok(false));
}

#[test]
fn chunks_that_are_not_compressed_data_are_an_error() {
    // The header of the compressed data does not end, or the data is missing.
    for payload in [&[255, 255, 255, 255, 255][..], &[4][..], &[][..]] {
        let mut receiver = CompressedBincodeChannel::new();
        let mut receiving = channel();
        let mut start = 0;
        arrive(&mut receiving, &mut start, &[1, payload.len() as u8, 0]);
        if !payload.is_empty() {
            arrive(&mut receiving, &mut start, payload);
        }
        assert!(matches!(
            receiver.poll_recv_ready(&mut receiving),
            Err(compressed_bincode_channel::RecvError::SnapError(_))
        ));
    }

    let mut receiver = CompressedTypedChannel::new(8);
    let mut receiving = channel();
    let mut start = 0;
    arrive(&mut receiving, &mut start, &[1, 0, 0, 4]);
    assert!(matches!(
        receiver.poll_recv_ready(&mut receiving),
        Err(compressed_typed_channel::Error::SnapError(_))
    ));
}

#[test]
fn chunks_that_are_too_large_are_an_error() {
    let mut receiver = CompressedTypedChannel::new(8);
    let mut receiving = channel();
    let mut start = 0;
    arrive(&mut receiving, &mut start, &[0, 8, 0]);
    assert_eq!(
        receiver.poll_recv_ready(&mut receiving),
        Err(compressed_typed_channel::Error::ChunkTooLarge)
    );

    // The compressed data is small, but not what it stands for.
    let mut receiver = CompressedTypedChannel::new(8);
    let mut receiving = channel();
    let mut start = 0;
    arrive(&mut receiving, &mut start, &[1, 0, 0, 9]);
    assert_eq!(
        receiver.poll_recv_ready(&mut receiving),
        Err(compressed_typed_channel::Error::ChunkTooLarge)
    );

    let mut receiver = CompressedBincodeChannel::new();
    let mut receiving = channel();
    let mut start = 0;
    arrive(&mut receiving, &mut start, &[1, 3, 0, 0x80, 0x80, 0x04]);
    assert!(matches!(
        receiver.poll_recv_ready(&mut receiving),
        Err(compressed_bincode_channel::RecvError::SnapError(_))
    ));

    receiving.fail(Error::Disconnected);
    assert_eq!(
        CompressedBincodeChannel::new().poll_recv_ready(&mut receiving),
        Err(compressed_bincode_channel::RecvError::ReliableChannelError(
            Error::Disconnected
        ))
    );
    assert_eq!(
        CompressedTypedChannel::new(8).poll_recv_ready(&mut receiving),
        Err(compressed_typed_channel::Error::ReliableChannelError(Error::Shutdown))
    );
}
