//! The packets of the reliability protocol.
//!
//! A packet starts with a signed 16-bit length and a 32-bit stream position. A packet whose length
//! is not negative carries that many bytes of the stream. A packet whose length is negative
//! acknowledges as many bytes, and ends with the position of the end of the receive window.

use vstd::prelude::*;

use crate::codec::{
    decode_i16, decode_u32, encode_i16, encode_u32, law_decode_encode_i16, law_decode_encode_u32,
    law_encode_decode_i16, law_encode_decode_u32, read_i16, read_u32, write_i16, write_u32,
};
use crate::windows::stream::{advance, lemma_advance, steps, StreamPos};

verus! {

/// The number of bytes before the stream data of a data packet.
pub const DATA_HEADER_LEN: usize = 6;

/// The length of an acknowledgement packet.
pub const ACK_LEN: usize = 10;

/// The largest number of stream bytes in a packet.
pub const MAX_DATA_LEN: u32 = 32767;

/// A packet of the reliability protocol. The stream data of a data packet is what follows its
/// header.
#[derive(Debug, Clone, Copy, PartialEq, Eq, Structural)]
pub enum Segment {
    Data { start: StreamPos },
    Ack { start: StreamPos, end: StreamPos, window_end: StreamPos },
}

/// The bytes of the packet that carries `data`, which starts at position `start`.
pub open spec fn data_packet(start: StreamPos, data: Seq<u8>) -> Seq<u8> {
    encode_i16(data.len() as i16) + encode_u32(start) + data
}

/// The bytes of the packet that acknowledges `len` bytes from `start` on.
pub open spec fn ack_packet(start: StreamPos, len: nat, window_end: StreamPos) -> Seq<u8> {
    encode_i16((-(len as int)) as i16) + encode_u32(start) + encode_u32(window_end)
}

/// The meaning of a packet, or `None` if it violates the protocol.
pub open spec fn parsed(packet: Seq<u8>) -> Option<Segment> {
    if packet.len() < 2 {
        None
    } else if decode_i16(packet) < 0 {
        if packet.len() == ACK_LEN {
            let start = decode_u32(packet.skip(2));
            Some(
                Segment::Ack {
                    start,
                    end: advance(start, -(decode_i16(packet) as int)),
                    window_end: decode_u32(packet.skip(6)),
                },
            )
        } else {
            None
        }
    } else if packet.len() >= DATA_HEADER_LEN && decode_i16(packet) == packet.len()
        - DATA_HEADER_LEN {
        Some(Segment::Data { start: decode_u32(packet.skip(2)) })
    } else {
        None
    }
}

/// A data packet is understood as what it was made from.
pub proof fn law_parse_data_packet(start: StreamPos, data: Seq<u8>)
    requires
        data.len() <= MAX_DATA_LEN,
    ensures
        parsed(data_packet(start, data)) == Some(Segment::Data { start }),
        data_packet(start, data).skip(DATA_HEADER_LEN as int) == data,
{
    let packet = data_packet(start, data);
    law_decode_encode_i16(data.len() as i16, encode_u32(start) + data);
    assert(packet =~= encode_i16(data.len() as i16) + (encode_u32(start) + data));
    law_decode_encode_u32(start, data);
    assert(packet.skip(2) =~= encode_u32(start) + data);
    assert(packet.skip(DATA_HEADER_LEN as int) =~= data);
}

/// An acknowledgement packet is understood as what it was made from.
pub proof fn law_parse_ack_packet(start: StreamPos, len: nat, window_end: StreamPos)
    requires
        0 < len <= MAX_DATA_LEN,
    ensures
        parsed(ack_packet(start, len, window_end)) == Some(
            Segment::Ack { start, end: advance(start, len as int), window_end },
        ),
{
    let packet = ack_packet(start, len, window_end);
    let n = (-(len as int)) as i16;
    law_decode_encode_i16(n, encode_u32(start) + encode_u32(window_end));
    assert(packet =~= encode_i16(n) + (encode_u32(start) + encode_u32(window_end)));
    law_decode_encode_u32(start, encode_u32(window_end));
    assert(packet.skip(2) =~= encode_u32(start) + encode_u32(window_end));
    law_decode_encode_u32(window_end, Seq::empty());
    assert(packet.skip(6) =~= encode_u32(window_end) + Seq::<u8>::empty());
}

/// A packet is understood only if it is made as data packets or acknowledgement packets are: one that is
/// too short or too long, or whose length does not fit, violates the protocol.
pub proof fn law_parsed_packet_is_well_made(packet: Seq<u8>)
    ensures
        parsed(packet) matches Some(Segment::Data { start }) ==> {
            &&& 6 <= packet.len() <= 6 + 32767
            &&& packet == data_packet(start, packet.skip(6))
        },
        parsed(packet) matches Some(Segment::Ack { start, end, window_end }) ==> {
            &&& packet.len() == 10
            &&& 0 < steps(start, end) <= 32768
            &&& packet == ack_packet(start, steps(start, end) as nat, window_end)
        },
        forall|start: StreamPos, data: Seq<u8>|
            data.len() <= 32767 && packet == #[trigger] data_packet(start, data) ==> parsed(packet)
                is Some,
{
    if parsed(packet) is Some {
        law_encode_decode_i16(packet);
        law_encode_decode_u32(packet.skip(2));
        match parsed(packet) {
            Some(Segment::Data { start }) => {
                assert(packet =~= data_packet(start, packet.skip(6)));
            },
            Some(Segment::Ack { start, end, window_end }) => {
                lemma_advance(start, -(decode_i16(packet) as int));
                law_encode_decode_u32(packet.skip(6));
                assert(packet =~= ack_packet(start, steps(start, end) as nat, window_end));
            },
            None => {},
        }
    }
    assert forall|start: StreamPos, data: Seq<u8>|
        data.len() <= 32767 && packet == #[trigger] data_packet(start, data) implies parsed(packet)
        is Some by {
        law_parse_data_packet(start, data);
    }
}

/// Where the fields of the packets stand: first the length, negative for an acknowledgement, then the
/// position, then the data or the window end.
pub proof fn law_packet_layout(start: StreamPos, data: Seq<u8>, len: int, window_end: StreamPos)
    requires
        data.len() <= 32767,
        0 < len <= 32767,
    ensures
        ({
            let packet = data_packet(start, data);
            &&& packet.len() == 6 + data.len()
            &&& packet[0] + 256 * packet[1] == data.len()
            &&& packet[2] + 256 * packet[3] + 65536 * packet[4] + 16777216 * packet[5] == start
            &&& packet.skip(6) == data
        }),
        ({
            let packet = ack_packet(start, len as nat, window_end);
            &&& packet.len() == 10
            &&& packet[0] + 256 * packet[1] == 65536 - len
            &&& packet[2] + 256 * packet[3] + 65536 * packet[4] + 16777216 * packet[5] == start
            &&& packet[6] + 256 * packet[7] + 65536 * packet[8] + 16777216 * packet[9] == window_end
        }),
{
    assert(data_packet(start, data).skip(6) =~= data);
}

/// Reads a packet.
pub fn parse(packet: &[u8]) -> (segment: Option<Segment>)
    ensures
        segment == parsed(packet@),
{
    if packet.len() < 2 {
        return None;
    }
    let len: i16 = read_i16(packet);
    if len < 0 {
        if packet.len() != ACK_LEN {
            return None;
        }
        let start: StreamPos = read_u32(vstd::slice::slice_subrange(packet, 2, packet.len()));
        let acked: u32 = (-(len as i32)) as u32;
        proof {
            lemma_advance(start, acked as int);
        }
        let window_end: StreamPos = read_u32(
            vstd::slice::slice_subrange(packet, 6, packet.len()),
        );
        Some(Segment::Ack { start, end: start.wrapping_add(acked), window_end })
    } else {
        if packet.len() < DATA_HEADER_LEN {
            return None;
        }
        let start: StreamPos = read_u32(vstd::slice::slice_subrange(packet, 2, packet.len()));
        if len as usize != packet.len() - DATA_HEADER_LEN {
            return None;
        }
        Some(Segment::Data { start })
    }
}

/// Fills in the header of a data packet.
pub fn write_data_header(bytes: &mut [u8], start: StreamPos)
    requires
        DATA_HEADER_LEN <= old(bytes)@.len() <= DATA_HEADER_LEN + MAX_DATA_LEN,
    ensures
        final(bytes)@ == data_packet(start, old(bytes)@.skip(DATA_HEADER_LEN as int)),
{
    let len: usize = bytes.len() - DATA_HEADER_LEN;
    write_i16(bytes, len as i16);
    let (_, rest) = bytes.split_at_mut(2);
    write_u32(rest, start);
    assert(bytes@ =~= data_packet(start, old(bytes)@.skip(DATA_HEADER_LEN as int)));
}

/// Fills in an acknowledgement packet.
pub fn write_ack(bytes: &mut [u8], start: StreamPos, len: u32, window_end: StreamPos)
    requires
        old(bytes)@.len() == ACK_LEN,
        0 < len <= MAX_DATA_LEN,
    ensures
        final(bytes)@ == ack_packet(start, len as nat, window_end),
{
    write_i16(bytes, -(len as i16));
    let (_, rest) = bytes.split_at_mut(2);
    write_u32(rest, start);
    let (_, end) = rest.split_at_mut(4);
    write_u32(end, window_end);
    assert(bytes@ =~= ack_packet(start, len as nat, window_end));
}

} // verus!
