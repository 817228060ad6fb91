use bincode::Options;
use rand::rngs::SmallRng;
use rand::{Rng, RngCore, SeedableRng};
use turbulence::buffer::{BufferPacket, BufferPacketPool, SimpleBufferPool};
use turbulence::compressed_bincode_channel::CompressedBincodeChannel;
use turbulence::compressed_typed_channel::CompressedTypedChannel;
use turbulence::link_condition::{DelayedPackets, Fate, Next};
use turbulence::packet::Packet;
use turbulence::reliable_bincode_channel::ReliableBincodeChannel;
use turbulence::reliable_channel::round::{Round, Step, WakeReason};
use turbulence::reliable_channel::{ReliableChannel, Settings};

type Pool = BufferPacketPool<SimpleBufferPool>;
type Channel = ReliableChannel<Pool, u64>;

#[derive(Clone, Copy)]
struct LinkCondition {
    loss: f64,
    duplicate: f64,
    delay: u64,
    jitter: u64,
}

/// One direction of a link with a random condition. Times are in milliseconds.
struct Link {
    condition: LinkCondition,
    rng: SmallRng,
    packets: DelayedPackets<Pool>,
}

impl Link {
    fn new(condition: LinkCondition, pool: Pool, seed: u64) -> Link {
        Link {
            condition,
            rng: SmallRng::seed_from_u64(seed),
            packets: DelayedPackets::new(pool),
        }
    }

    fn arrival(&mut self, now: u64) -> u64 {
        let jitter = self.rng.gen::<f64>() * (self.condition.jitter * 1000) as f64;
        (now + self.condition.delay) * 1000 + jitter as u64
    }

    fn push(&mut self, now: u64, packet: BufferPacket<Vec<u8>>) {
        let fate = if self.rng.gen::<f64>() > self.condition.loss {
            let duplicate_at = if self.rng.gen::<f64>() <= self.condition.duplicate {
                Some(self.arrival(now))
            } else {
                None
            };
            Fate::Delayed {
                at: self.arrival(now),
                duplicate_at,
            }
        } else {
            Fate::Lost
        };
        self.packets.push(packet, fate);
    }

    fn pop(&mut self, now: u64) -> Option<BufferPacket<Vec<u8>>> {
        match self.packets.next(now * 1000) {
            Next::Ready => self.packets.pop(),
            Next::Pending | Next::Sleep(_) => None,
        }
    }
}

const RESEND_TIME: u64 = 50;
const INITIAL_RTT: f64 = 0.1;
const MAX_RTT: u64 = 2000;
const RTT_UPDATE_FACTOR: f64 = 0.1;
const RTT_RESEND_FACTOR: f64 = 1.5;

/// A reliable channel with what drives it.
struct Endpoint {
    channel: Channel,
    bandwidth: f64,
    burst_bandwidth: f64,
    bytes_available: f64,
    last_calculation: u64,
    resend_at: u64,
    rtt_estimate: f64,
}

impl Endpoint {
    fn new(pool: Pool, settings: &Settings) -> Endpoint {
        Endpoint {
            channel: ReliableChannel::new(pool, settings),
            bandwidth: settings.bandwidth as f64,
            burst_bandwidth: settings.burst_bandwidth as f64,
            bytes_available: settings.burst_bandwidth as f64,
            last_calculation: 0,
            resend_at: RESEND_TIME,
            rtt_estimate: INITIAL_RTT,
        }
    }

    fn update_available(&mut self, now: u64) {
        self.bytes_available += (now - self.last_calculation) as f64 / 1000. * self.bandwidth;
        self.bytes_available = self.bytes_available.min(self.burst_bandwidth);
        self.last_calculation = now;
    }

    fn transmit(&mut self, now: u64, outgoing: &mut Link, packet: BufferPacket<Vec<u8>>) {
        self.bytes_available -= packet.as_slice().len() as f64;
        outgoing.push(now, packet);
    }

    /// Works until there is nothing left to do at this time.
    fn run_until_stalled(&mut self, now: u64, incoming: &mut Link, outgoing: &mut Link) {
        loop {
            self.update_available(now);
            let packet = incoming.pop(now);
            let reason = if packet.is_some() {
                WakeReason::IncomingPacket
            } else if self.bytes_available < 0. {
                return;
            } else if now >= self.resend_at {
                WakeReason::ResendTimer
            } else if self.channel.task.remote_recv_available() > 0
                && self.channel.shared.send_window.send_available() > 0
            {
                WakeReason::SendAvailable
            } else {
                return;
            };

            let mut round = Round::begin(reason);
            loop {
                let available = self.bytes_available >= 0.;
                let unacked_len = self.channel.task.unacked_len();
                match round.step(unacked_len) {
                    Step::Receive => {
                        let effects = self
                            .channel
                            .task
                            .recv_packet(
                                &mut self.channel.shared,
                                packet.as_ref().unwrap().as_slice(),
                                available,
                                now,
                            )
                            .unwrap();
                        if let Some(data) = effects.data {
                            self.transmit(now, outgoing, data);
                        }
                        if let Some(ack) = effects.ack {
                            outgoing.push(now, ack);
                        }
                        if let Some(last_sent) = effects.timed_by {
                            let rtt = (now - last_sent).min(MAX_RTT) as f64 / 1000.;
                            self.rtt_estimate += (rtt - self.rtt_estimate) * RTT_UPDATE_FACTOR;
                        }
                    }
                    Step::Consider(index) => {
                        let due = match self.channel.task.unacked_range(index).last_sent {
                            Some(last_sent) => {
                                (now - last_sent) as f64 / 1000.
                                    > self.rtt_estimate * RTT_RESEND_FACTOR
                            }
                            None => true,
                        };
                        if round.considered(unacked_len, available, due) {
                            let packet = self.channel.task.resend(
                                &self.channel.shared.send_window,
                                index,
                                now,
                            );
                            self.transmit(now, outgoing, packet);
                        }
                    }
                    Step::RestartTimer => {
                        self.resend_at = now + RESEND_TIME;
                    }
                    Step::Send => {
                        if let Some(packet) = self.channel.task.send(
                            &mut self.channel.shared.send_window,
                            available,
                            now,
                        ) {
                            self.transmit(now, outgoing, packet);
                        }
                    }
                    Step::Finish => {
                        self.channel.task.avoid_stall();
                        break;
                    }
                }
            }
        }
    }
}

/// Connects two channels and lets both users work until they are done.
fn simulate(
    settings: &Settings,
    condition: LinkCondition,
    seed: u64,
    mut user_a: impl FnMut(&mut Channel, u64) -> bool,
    mut user_b: impl FnMut(&mut Channel, u64) -> bool,
) {
    let pool = BufferPacketPool::new(SimpleBufferPool(1000));
    let mut a = Endpoint::new(pool.clone(), settings);
    let mut b = Endpoint::new(pool.clone(), settings);
    let mut a_to_b = Link::new(condition, pool.clone(), seed);
    let mut b_to_a = Link::new(condition, pool.clone(), seed + 1);
    let mut now = 0;
    for _ in 0..100_000 {
        let a_done = user_a(&mut a.channel, now);
        let b_done = user_b(&mut b.channel, now);
        if a_done && b_done {
            return;
        }
        a.run_until_stalled(now, &mut b_to_a, &mut a_to_b);
        b.run_until_stalled(now, &mut a_to_b, &mut b_to_a);
        now += 50;
    }
    panic!("didn't finish in time");
}

const STREAM_SETTINGS: Settings = Settings {
    bandwidth: 32768,
    burst_bandwidth: 4096,
    recv_window_size: 16384,
    send_window_size: 16384,
    init_send: 512,
};

const STREAM_CONDITION: LinkCondition = LinkCondition {
    loss: 0.4,
    duplicate: 0.1,
    delay: 30,
    jitter: 20,
};

fn reliable_stream(seed: u64) {
    const END_POS: usize = 86_753;
    const FLUSH_EVERY: usize = 2000;
    const SEND_DELAY_NEAR: usize = 30_000;
    const RECV_DELAY_NEAR: usize = 70_000;

    let mut sent = 0;
    let mut send_after = 0;
    let mut received = 0;
    let mut recv_after = 0;
    simulate(
        &STREAM_SETTINGS,
        STREAM_CONDITION,
        seed,
        |stream, now| {
            while sent < END_POS && now >= send_after {
                let mut send_buffer = [0; 512];
                for i in 0..send_buffer.len() {
                    send_buffer[i] = (sent + i) as u8;
                }
                let end = send_buffer.len().min(END_POS - sent);
                let len = stream.write(&send_buffer[0..end]).unwrap();
                if len == 0 {
                    break;
                }
                if sent % FLUSH_EVERY >= (sent + len) % FLUSH_EVERY {
                    stream.flush().unwrap();
                }
                if sent < SEND_DELAY_NEAR && sent + len > SEND_DELAY_NEAR {
                    send_after = now + 1000;
                }
                sent += len;
                if sent == END_POS {
                    stream.flush().unwrap();
                }
            }
            sent == END_POS
        },
        |stream, now| {
            while received < END_POS && now >= recv_after {
                let mut recv_buffer = [0; 64];
                let len = stream.read(&mut recv_buffer).unwrap();
                if len == 0 {
                    break;
                }
                for i in 0..len {
                    if recv_buffer[i] != (received + i) as u8 {
                        panic!();
                    }
                }
                if received < RECV_DELAY_NEAR && received + len >= RECV_DELAY_NEAR {
                    recv_after = now + 2000;
                }
                received += len;
            }
            received == END_POS
        },
    );
    assert_eq!(received, END_POS);
}

#[test]
fn tests_test_reliable_stream() {
    reliable_stream(1);
}

#[test]
fn reliable_channel_test_reliable_stream() {
    for seed in 2..6 {
        reliable_stream(seed);
    }
}

const MESSAGE_SETTINGS: Settings = Settings {
    bandwidth: 2048,
    burst_bandwidth: 512,
    recv_window_size: 512,
    send_window_size: 512,
    init_send: 256,
};

const MESSAGE_CONDITION: LinkCondition = LinkCondition {
    loss: 0.2,
    duplicate: 0.05,
    delay: 40,
    jitter: 10,
};

fn serialize(value: &Vec<u8>) -> Vec<u8> {
    bincode::DefaultOptions::new().serialize(value).unwrap()
}

fn deserialize(mut bytes: &[u8]) -> (Vec<u8>, usize) {
    let before = bytes.len();
    let value = bincode::DefaultOptions::new()
        .allow_trailing_bytes()
        .deserialize_from(&mut bytes)
        .unwrap();
    (value, before - bytes.len())
}

#[test]
fn test_reliable_bincode_channel() {
    let mut stream1 = ReliableBincodeChannel::new(1024);
    let mut stream2 = ReliableBincodeChannel::new(1024);
    let mut sent1 = 0;
    let mut flushed1 = false;
    let mut received1 = 0;
    let mut received2 = 0;
    let mut sent2 = 0;
    let mut flushed2 = false;
    simulate(
        &MESSAGE_SETTINGS,
        MESSAGE_CONDITION,
        7,
        |channel, _| {
            while sent1 < 100 {
                let send_val = vec![sent1 as u8 + 42; sent1 + 25];
                if !stream1.send(channel, &serialize(&send_val)).unwrap() {
                    return false;
                }
                sent1 += 1;
            }
            if !flushed1 {
                flushed1 = stream1.flush(channel).unwrap();
            }
            while flushed1 && received1 < 100 && stream1.poll_recv_ready(channel).unwrap() {
                let (recv_val, _) = deserialize(&stream1.recv_next());
                assert_eq!(recv_val, vec![received1 as u8 + 64; received1 + 50].as_slice());
                received1 += 1;
            }
            received1 == 100
        },
        |channel, _| {
            while received2 < 100 && stream2.poll_recv_ready(channel).unwrap() {
                let (recv_val, _) = deserialize(&stream2.recv_next());
                assert_eq!(recv_val, vec![received2 as u8 + 42; received2 + 25].as_slice());
                received2 += 1;
            }
            while received2 == 100 && sent2 < 100 {
                let send_val = vec![sent2 as u8 + 64; sent2 + 50];
                if !stream2.send(channel, &serialize(&send_val)).unwrap() {
                    return false;
                }
                sent2 += 1;
            }
            if sent2 == 100 && !flushed2 {
                flushed2 = stream2.flush(channel).unwrap();
            }
            flushed2
        },
    );
}

fn compressed_typed_channel(seed: u64) {
    let mut stream1 = CompressedTypedChannel::new(1024);
    let mut stream2 = CompressedTypedChannel::new(1024);
    let mut rng = SmallRng::seed_from_u64(seed);
    let mut sent1 = 0;
    let mut flushed1 = false;
    let mut received1 = 0;
    let mut received2 = 0;
    let mut sent2 = 0;
    let mut flushed2 = false;
    simulate(
        &MESSAGE_SETTINGS,
        MESSAGE_CONDITION,
        seed + 1,
        |channel, _| {
            while sent1 < 100 {
                let send_val = vec![sent1 as u8 + 13; sent1 + 25];
                if !stream1.send(channel, &serialize(&send_val)).unwrap() {
                    return false;
                }
                sent1 += 1;
            }
            if !flushed1 {
                flushed1 = stream1.flush(channel).unwrap();
            }
            while flushed1 && received1 < 100 && stream1.poll_recv_ready(channel).unwrap() {
                let (recv_val, len) = deserialize(stream1.peek());
                stream1.recv_next(len);
                assert_eq!(recv_val.len(), received1 + 17);
                received1 += 1;
            }
            received1 == 100
        },
        |channel, _| {
            while received2 < 100 && stream2.poll_recv_ready(channel).unwrap() {
                let (recv_val, len) = deserialize(stream2.peek());
                stream2.recv_next(len);
                assert_eq!(recv_val, vec![received2 as u8 + 13; received2 + 25].as_slice());
                received2 += 1;
            }
            while received2 == 100 && sent2 < 100 {
                let mut send_val = vec![0; sent2 + 17];
                rng.fill_bytes(&mut send_val);
                if !stream2.send(channel, &serialize(&send_val)).unwrap() {
                    return false;
                }
                sent2 += 1;
            }
            if sent2 == 100 && !flushed2 {
                flushed2 = stream2.flush(channel).unwrap();
            }
            flushed2
        },
    );
}

#[test]
fn test_compressed_typed_channel() {
    compressed_typed_channel(10);
}

#[test]
fn compressed_typed_channel_test_compressed_typed_channel() {
    for seed in 11..14 {
        compressed_typed_channel(seed);
    }
}

#[test]
fn compressed_bincode_channel_delivers_in_order() {
    let mut stream1 = CompressedBincodeChannel::new();
    let mut stream2 = CompressedBincodeChannel::new();
    let mut rng = SmallRng::seed_from_u64(20);
    let values: Vec<Vec<u8>> = (0..200)
        .map(|i| {
            let mut value = vec![i as u8; i + 3];
            if i % 3 == 0 {
                rng.fill_bytes(&mut value);
            }
            value
        })
        .collect();
    let mut sent = 0;
    let mut flushed = false;
    let mut received = 0;
    simulate(
        &STREAM_SETTINGS,
        STREAM_CONDITION,
        21,
        |channel, _| {
            while sent < values.len() {
                if !stream1.send(channel, &serialize(&values[sent])).unwrap() {
                    return false;
                }
                sent += 1;
            }
            if !flushed {
                flushed = stream1.flush(channel).unwrap();
            }
            flushed
        },
        |channel, _| {
            while received < values.len() && stream2.poll_recv_ready(channel).unwrap() {
                let (value, len) = deserialize(stream2.peek());
                stream2.recv_next(len);
                assert_eq!(value, values[received]);
                received += 1;
            }
            received == values.len()
        },
    );
}
