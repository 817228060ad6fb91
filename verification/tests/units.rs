use std::cmp::Ordering;

use turbulence::buffer::{Buffer, BufferPacketPool, BufferPool, SimpleBufferPool};
use turbulence::chat::reply;
use turbulence::event_watch::EventWatch;
use turbulence::link_condition::{DelayedPackets, Fate, Next};
use turbulence::packet::{copy_to, Packet, PacketPool, MAX_PACKET_LEN};
use turbulence::packet_pool;
use turbulence::pool::{reuse, Init, Pool};
use turbulence::test_util::TestTimer;
use turbulence::wrap_cmp::{wrap_cmp, wrap_ge, wrap_gt, wrap_lt};

#[test]
fn buffer_packets_occupy_the_first_bytes() {
    let mut pool = BufferPacketPool::new(SimpleBufferPool(6));
    assert_eq!(pool.capacity(), 6);
    let mut packet = pool.acquire();
    assert_eq!(packet.capacity(), 6);
    packet.extend(&[1, 2, 3]);
    packet.resize(5, 7);
    assert_eq!(packet.as_slice(), [1, 2, 3, 7, 7]);
    packet.truncate(9);
    packet.truncate(2);
    packet.resize(3, 0);
    assert_eq!(packet.as_slice(), [1, 2, 0]);
    packet.as_mut_slice()[1] = 9;
    assert_eq!(packet.as_slice(), [1, 9, 0]);
    packet.clear();
    assert_eq!(packet.as_slice(), []);
    assert_eq!(MAX_PACKET_LEN, 32768);

    let mut source = SimpleBufferPool(2);
    assert_eq!(BufferPool::capacity(&source), 2);
    let mut buffer = BufferPool::acquire(&mut source);
    Buffer::as_mut_slice(&mut buffer)[0] = 4;
    assert_eq!(Buffer::as_slice(&buffer), [4, 0]);

    let mut bytes = [0; 5];
    copy_to(&mut bytes, 2, &[8, 9]);
    assert_eq!(bytes, [0, 0, 8, 9, 0]);
}

#[test]
fn pooled_packets_keep_their_buffer() {
    let pool = packet_pool::PacketPool::new(SimpleBufferPool(5));
    let mut packet = pool.acquire();
    assert_eq!(packet.capacity(), 5);
    assert_eq!(packet.contents(), []);
    packet.resize(2, 3);
    assert_eq!(packet.contents(), [3, 3]);
    packet.extend(&[4, 5]);
    assert_eq!(packet.contents(), [3, 3]);
    assert_eq!(packet.as_slice(), [3, 3, 4, 5, 0]);
    packet.as_mut_slice()[0] = 6;
    packet.truncate(4);
    assert_eq!(packet.contents(), [6, 3]);
    packet.truncate(1);
    assert_eq!(packet.contents(), [6]);
    packet.clear();
    assert_eq!(packet.contents(), []);
    assert_eq!(packet.as_slice(), [6, 3, 4, 5, 0]);
}

#[test]
fn acquired_packets_are_as_long_as_their_buffer() {
    let pool = packet_pool::PacketPool::new(SimpleBufferPool(4));
    let mut packet = pool.acquire();
    assert_eq!(packet.as_slice(), [0, 0, 0, 0]);
    packet.resize(2, 7);
    packet.resize(1, 0);
    packet.resize(3, 9);
    assert_eq!(packet.contents(), [7, 9, 9]);
    assert_eq!(packet.capacity(), 4);
}

struct Item(u32);

impl Init for Item {
    fn initialize(&mut self) {
        self.0 = 0;
    }
}

#[test]
fn items_are_used_again() {
    let pool = Pool::new();
    let item = pool.acquire_with(|| Item(3));
    assert_eq!(item.0, 3);
    pool.release(item);
    assert_eq!(pool.acquire_with(|| Item(4)).0, 0);
    assert_eq!(pool.acquire_with(|| Item(5)).0, 5);
    assert_eq!(reuse(Some(1), || 2), 1);
    assert_eq!(reuse(None, || 2), 2);
}

#[test]
fn events_are_received_once() {
    let mut watch = EventWatch::new();
    assert!(!watch.poll_wait());
    watch.signal();
    watch.signal();
    assert!(watch.poll_wait());
    assert!(!watch.poll_wait());
    watch.signal();
    assert!(watch.poll_wait());
}

#[test]
fn delayed_packets_arrive_in_order_of_time() {
    let pool = BufferPacketPool::new(SimpleBufferPool(4));
    let mut source = pool.clone();
    let mut packet = |value: u8| {
        let mut packet = source.acquire();
        packet.extend(&[value]);
        packet
    };
    let mut link = DelayedPackets::new(pool);
    assert_eq!(link.next(0), Next::Pending);
    link.push(packet(1), Fate::Delayed { at: 30, duplicate_at: None });
    link.push(packet(2), Fate::Lost);
    link.push(packet(3), Fate::Delayed { at: 20, duplicate_at: Some(40) });
    assert_eq!(link.next(5), Next::Sleep(15));
    assert_eq!(link.next(20), Next::Ready);
    assert_eq!(link.pop().unwrap().as_slice(), [3]);
    assert_eq!(link.next(20), Next::Sleep(10));
    assert_eq!(link.pop().unwrap().as_slice(), [1]);
    assert_eq!(link.pop().unwrap().as_slice(), [3]);
    assert!(link.pop().is_none());
}

#[test]
fn timers_wake_up_those_whose_time_has_come() {
    let mut timer = TestTimer::new();
    assert_eq!(timer.arrival(0), 1);
    let late = timer.arrival(30);
    assert_eq!(timer.poll_delay(late, "late"), None);
    assert_eq!(timer.poll_delay(10, "early"), None);
    assert_eq!(timer.poll_delay(20, "middle"), None);
    assert_eq!(timer.advance(5), vec![]);
    assert_eq!(timer.advance(15), vec![(10, "early"), (20, "middle")]);
    assert_eq!(timer.now(), 20);
    assert_eq!(timer.elapsed(5), 15);
    assert_eq!(timer.poll_delay(20, "again"), Some(20));
    assert_eq!(timer.advance(50), vec![(30, "late")]);
}

#[test]
fn wrapping_numbers_are_compared_across_the_wrap_point() {
    assert_eq!(wrap_cmp(&3u8, &5), Ordering::Less);
    assert_eq!(wrap_cmp(&250u8, &4), Ordering::Less);
    assert_eq!(wrap_cmp(&4u8, &250), Ordering::Greater);
    assert_eq!(wrap_cmp(&4u8, &132), Ordering::Equal);
    assert!(wrap_lt(&u16::MAX, &0));
    assert!(wrap_gt(&0u32, &u32::MAX));
    assert!(wrap_ge(&7u64, &7));
    assert!(!wrap_ge(&6u64, &7));
    assert!(wrap_lt(&u128::MAX, &0));
    assert!(wrap_lt(&usize::MAX, &0));
}

#[test]
fn introductions_are_answered() {
    assert_eq!(reply(b"I'm Ada".to_vec()), b"Hi Ada, I'm server!");
    assert_eq!(reply(b"I'm ".to_vec()), b"I'm ");
    assert_eq!(reply(b"hello there".to_vec()), b"hello there");
    assert_eq!(reply(b"".to_vec()), b"");
}
