use std::collections::VecDeque;

use bincode::Options;
use turbulence::buffer::{BufferPacket, BufferPacketPool, SimpleBufferPool};
use turbulence::framing::SizeLimit;
use turbulence::packet::Packet;
use turbulence::unreliable_bincode_channel::UnreliableBincodeChannel;
use turbulence::unreliable_channel::{
    Disconnected, Flush, Outgoing, RecvError, SendError, UnreliableChannel, MAX_MESSAGE_LEN,
};

type Pool = BufferPacketPool<SimpleBufferPool>;
type Queue = VecDeque<BufferPacket<Vec<u8>>>;

fn flush(stream: &mut UnreliableChannel<Pool>, outgoing: &mut Queue) {
    loop {
        match stream.flush(Outgoing::Ready).unwrap() {
            Flush::Done => return,
            Flush::Pending => unreachable!(),
            Flush::Send(packet) => outgoing.push_back(packet),
        }
    }
}

#[test]
fn test_unreliable_channel() {
    let packet_pool = BufferPacketPool::new(SimpleBufferPool(1200));
    let mut stream1 = UnreliableChannel::new(packet_pool.clone());
    let mut stream2 = UnreliableChannel::new(packet_pool.clone());
    let mut a_to_b = Queue::new();
    let mut b_to_a = Queue::new();

    fn send(stream: &mut UnreliableChannel<Pool>, outgoing: &mut Queue, val: u8, len: usize) {
        let msg1 = vec![val; len];
        while !stream.send(&msg1).unwrap() {
            flush(stream, outgoing);
        }
        flush(stream, outgoing);
    }

    fn recv(stream: &mut UnreliableChannel<Pool>, incoming: &mut Queue, val: u8, len: usize) {
        if stream.needs_packet() {
            stream.recv_packet(incoming.pop_front()).unwrap();
        }
        assert_eq!(stream.next_msg().unwrap(), vec![val; len].as_slice());
    }

    send(&mut stream1, &mut a_to_b, 42, 5);
    recv(&mut stream2, &mut a_to_b, 42, 5);
    send(&mut stream2, &mut b_to_a, 17, 800);
    recv(&mut stream1, &mut b_to_a, 17, 800);
    send(&mut stream1, &mut a_to_b, 4, 700);
    recv(&mut stream2, &mut a_to_b, 4, 700);
    send(&mut stream2, &mut b_to_a, 25, 1150);
    send(&mut stream2, &mut b_to_a, 0, 0);
    send(&mut stream2, &mut b_to_a, 0, 0);
    recv(&mut stream1, &mut b_to_a, 25, 1150);
    recv(&mut stream1, &mut b_to_a, 0, 0);
    recv(&mut stream1, &mut b_to_a, 0, 0);
    send(&mut stream1, &mut a_to_b, 64, 1000);
    send(&mut stream1, &mut a_to_b, 0, 0);
    send(&mut stream1, &mut a_to_b, 64, 1000);
    send(&mut stream1, &mut a_to_b, 0, 0);
    send(&mut stream1, &mut a_to_b, 0, 0);
    recv(&mut stream2, &mut a_to_b, 64, 1000);
    recv(&mut stream2, &mut a_to_b, 0, 0);
    recv(&mut stream2, &mut a_to_b, 64, 1000);
    recv(&mut stream2, &mut a_to_b, 0, 0);
    recv(&mut stream2, &mut a_to_b, 0, 0);
    send(&mut stream2, &mut b_to_a, 0, 0);
    send(&mut stream2, &mut b_to_a, 99, 64);
    recv(&mut stream1, &mut b_to_a, 0, 0);
    recv(&mut stream1, &mut b_to_a, 99, 64);
    send(&mut stream1, &mut a_to_b, 72, 400);
    send(&mut stream1, &mut a_to_b, 82, 500);
    send(&mut stream1, &mut a_to_b, 92, 600);
    recv(&mut stream2, &mut a_to_b, 72, 400);
    recv(&mut stream2, &mut a_to_b, 82, 500);
    recv(&mut stream2, &mut a_to_b, 92, 600);
}

#[test]
fn test_unreliable_bincode_channel() {
    let packet_pool = BufferPacketPool::new(SimpleBufferPool(1200));
    let mut stream1 = UnreliableBincodeChannel::new(UnreliableChannel::new(packet_pool.clone()));
    let mut stream2 = UnreliableBincodeChannel::new(UnreliableChannel::new(packet_pool.clone()));
    let mut a_to_b = Queue::new();
    let mut b_to_a = Queue::new();

    fn flush(stream: &mut UnreliableBincodeChannel<Pool>, outgoing: &mut Queue) {
        loop {
            match stream.flush(Outgoing::Ready).unwrap() {
                Flush::Done => return,
                Flush::Pending => unreachable!(),
                Flush::Send(packet) => outgoing.push_back(packet),
            }
        }
    }

    fn send(stream: &mut UnreliableBincodeChannel<Pool>, outgoing: &mut Queue, val: u8, len: u8) {
        for i in 0..len {
            let msg = (val + i, val + 1 + i, val + 2 + i);
            let bytes = bincode::DefaultOptions::new().serialize(&msg).unwrap();
            while !stream.try_send(bytes.clone()).unwrap() {
                flush(stream, outgoing);
            }
        }
        flush(stream, outgoing);
    }

    fn recv(stream: &mut UnreliableBincodeChannel<Pool>, incoming: &mut Queue, val: u8, len: u8) {
        for i in 0..len {
            if stream.needs_packet() {
                stream.recv_packet(incoming.pop_front()).unwrap();
            }
            let msg: (u8, u8, u8) = bincode::DefaultOptions::new()
                .deserialize(stream.next_msg().unwrap())
                .unwrap();
            assert_eq!(msg, (val + i, val + 1 + i, val + 2 + i));
        }
    }

    send(&mut stream1, &mut a_to_b, 42, 5);
    recv(&mut stream2, &mut a_to_b, 42, 5);
    send(&mut stream2, &mut b_to_a, 17, 80);
    recv(&mut stream1, &mut b_to_a, 17, 80);
    send(&mut stream1, &mut a_to_b, 4, 70);
    recv(&mut stream2, &mut a_to_b, 4, 70);
    send(&mut stream2, &mut b_to_a, 25, 115);
    send(&mut stream2, &mut b_to_a, 0, 0);
    send(&mut stream2, &mut b_to_a, 0, 0);
    recv(&mut stream1, &mut b_to_a, 25, 115);
    recv(&mut stream1, &mut b_to_a, 0, 0);
    recv(&mut stream1, &mut b_to_a, 0, 0);
    send(&mut stream1, &mut a_to_b, 64, 100);
    send(&mut stream1, &mut a_to_b, 0, 0);
    send(&mut stream1, &mut a_to_b, 64, 100);
    send(&mut stream1, &mut a_to_b, 0, 0);
    send(&mut stream1, &mut a_to_b, 0, 0);
    recv(&mut stream2, &mut a_to_b, 64, 100);
    recv(&mut stream2, &mut a_to_b, 0, 0);
    recv(&mut stream2, &mut a_to_b, 64, 100);
    recv(&mut stream2, &mut a_to_b, 0, 0);
    recv(&mut stream2, &mut a_to_b, 0, 0);
    send(&mut stream2, &mut b_to_a, 0, 0);
    send(&mut stream2, &mut b_to_a, 99, 6);
    recv(&mut stream1, &mut b_to_a, 0, 0);
    recv(&mut stream1, &mut b_to_a, 99, 6);
    send(&mut stream1, &mut a_to_b, 72, 40);
    send(&mut stream1, &mut a_to_b, 82, 50);
    send(&mut stream1, &mut a_to_b, 92, 60);
    recv(&mut stream2, &mut a_to_b, 72, 40);
    recv(&mut stream2, &mut a_to_b, 82, 50);
    recv(&mut stream2, &mut a_to_b, 92, 60);
}

#[test]
fn messages_are_coalesced_with_their_lengths() {
    let mut stream = UnreliableChannel::new(BufferPacketPool::new(SimpleBufferPool(16)));
    let mut queue = Queue::new();
    assert_eq!(stream.send(&[1, 2, 3]), Ok(true));
    assert_eq!(stream.send(&[]), Ok(true));
    assert_eq!(stream.send(&[4; 7]), Ok(true));
    // The packet is full, so that it has to be sent first.
    assert_eq!(stream.send(&[5]), Ok(false));
    flush(&mut stream, &mut queue);
    assert_eq!(stream.send(&[5]), Ok(true));
    flush(&mut stream, &mut queue);
    assert_eq!(
        queue[0].as_slice(),
        [3, 0, 1, 2, 3, 0, 0, 7, 0, 4, 4, 4, 4, 4, 4, 4]
    );
    assert_eq!(queue[1].as_slice(), [1, 0, 5]);
    stream.recv_packet(queue.pop_front()).unwrap();
    assert_eq!(stream.next_msg(), Ok(&[1, 2, 3][..]));
    assert_eq!(stream.next_msg(), Ok(&[][..]));
    assert!(!stream.needs_packet());
    assert_eq!(stream.next_msg(), Ok(&[4; 7][..]));
    assert!(stream.needs_packet());
}

#[test]
fn messages_that_fit_no_packet_are_too_big() {
    let mut stream = UnreliableChannel::new(BufferPacketPool::new(SimpleBufferPool(16)));
    assert_eq!(stream.max_message_len(), 14);
    assert_eq!(stream.send(&[0; 15]), Err(SendError::TooBig));
    assert_eq!(stream.send(&[0; 65536]), Err(SendError::TooBig));
    assert_eq!(stream.send(&[0; 14]), Ok(true));
    assert_eq!(stream.send(&[0; 15]), Ok(false));
    let large = UnreliableChannel::new(BufferPacketPool::new(SimpleBufferPool(50_000)));
    assert_eq!(large.max_message_len(), MAX_MESSAGE_LEN);
}

#[test]
fn badly_formatted_packets_are_dropped() {
    let pool = BufferPacketPool::new(SimpleBufferPool(16));
    for bytes in [&[7][..], &[3, 0, 1, 2][..], &[1, 1, 9][..]] {
        let mut stream = UnreliableChannel::new(pool.clone());
        let mut source = pool.clone();
        let mut packet = turbulence::packet::PacketPool::acquire(&mut source);
        packet.extend(&[1, 0, 8]);
        packet.extend(bytes);
        stream.recv_packet(Some(packet)).unwrap();
        assert_eq!(stream.next_msg(), Ok(&[8][..]));
        assert_eq!(stream.next_msg(), Err(RecvError::BadFormat));
        assert!(stream.needs_packet());
    }
}

#[test]
fn unreliable_channel_waits_and_disconnects() {
    let mut stream = UnreliableChannel::new(BufferPacketPool::new(SimpleBufferPool(16)));
    assert!(matches!(stream.flush(Outgoing::Disconnected), Ok(Flush::Done)));
    assert_eq!(stream.send(&[1]), Ok(true));
    assert!(matches!(stream.flush(Outgoing::Blocked), Ok(Flush::Pending)));
    assert!(matches!(stream.flush(Outgoing::Disconnected), Err(Disconnected)));
    assert!(matches!(stream.flush(Outgoing::Ready), Ok(Flush::Send(_))));
    assert_eq!(stream.recv_packet(None), Err(Disconnected));
}

#[test]
fn unreliable_bincode_channel_keeps_one_message() {
    let pool = BufferPacketPool::new(SimpleBufferPool(8));
    let mut stream = UnreliableBincodeChannel::new(UnreliableChannel::new(pool));
    assert_eq!(stream.max_message_len(), 6);
    assert_eq!(stream.try_send(vec![1; 7]), Err(SizeLimit));
    assert_eq!(stream.try_send(vec![1; 6]), Ok(true));
    assert_eq!(stream.try_send(vec![2; 6]), Ok(true));
    assert_eq!(stream.try_send(vec![3; 6]), Ok(false));
    assert!(!stream.is_ready());
    assert!(!stream.send_ready());
    match stream.flush(Outgoing::Ready) {
        Ok(Flush::Send(packet)) => assert_eq!(packet.as_slice(), [6, 0, 1, 1, 1, 1, 1, 1]),
        _ => panic!(),
    }
    match stream.flush(Outgoing::Ready) {
        Ok(Flush::Send(packet)) => assert_eq!(packet.as_slice(), [6, 0, 2, 2, 2, 2, 2, 2]),
        _ => panic!(),
    }
    assert!(matches!(stream.flush(Outgoing::Ready), Ok(Flush::Done)));
    assert!(stream.is_ready());
    assert_eq!(stream.start_send(vec![4]), Ok(()));
    assert!(!stream.is_ready());
    assert!(stream.into_inner().needs_packet());
}
