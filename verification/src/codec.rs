//! Little endian integers.

use byteorder::{ByteOrder, LittleEndian};
use vstd::prelude::*;

use crate::ring_buffer::overlay;

verus! {

/// The two bytes of `n`, low byte first.
pub open spec fn encode_u16(n: u16) -> Seq<u8> {
    seq![(n as int % 256) as u8, (n as int / 256) as u8]
}

/// The number whose two bytes, low byte first, are the first ones of `bytes`.
pub open spec fn decode_u16(bytes: Seq<u8>) -> u16 {
    (bytes[0] + 256 * bytes[1]) as u16
}

/// The four bytes of `n`, low byte first.
pub open spec fn encode_u32(n: u32) -> Seq<u8> {
    seq![
        (n as int % 256) as u8,
        (n as int / 256 % 256) as u8,
        (n as int / 65536 % 256) as u8,
        (n as int / 16777216) as u8,
    ]
}

/// The number whose four bytes, low byte first, are the first ones of `bytes`.
pub open spec fn decode_u32(bytes: Seq<u8>) -> u32 {
    (bytes[0] + 256 * bytes[1] + 65536 * bytes[2] + 16777216 * bytes[3]) as u32
}

/// The number that has the same two bytes as `n` in two's complement.
pub open spec fn as_unsigned(n: i16) -> u16 {
    (if n >= 0 {
        n as int
    } else {
        n + 65536
    }) as u16
}

/// The number in two's complement that has the same two bytes as `n`.
pub open spec fn as_signed(n: u16) -> i16 {
    (if n < 32768 {
        n as int
    } else {
        n - 65536
    }) as i16
}

/// The two bytes of `n` in two's complement, low byte first.
pub open spec fn encode_i16(n: i16) -> Seq<u8> {
    encode_u16(as_unsigned(n))
}

/// The number in two's complement whose two bytes, low byte first, are the first ones of `bytes`.
pub open spec fn decode_i16(bytes: Seq<u8>) -> i16 {
    as_signed(decode_u16(bytes))
}

/// Decoding gives back what was encoded, whatever bytes follow.
pub proof fn law_decode_encode_u16(n: u16, rest: Seq<u8>)
    ensures
        encode_u16(n).len() == 2,
        decode_u16(encode_u16(n) + rest) == n,
{
}

/// Encoding gives back what was decoded.
pub proof fn law_encode_decode_u16(bytes: Seq<u8>)
    requires
        bytes.len() >= 2,
    ensures
        encode_u16(decode_u16(bytes)) == bytes.take(2),
{
    assert(encode_u16(decode_u16(bytes)) =~= bytes.take(2));
}

/// Decoding gives back what was encoded, whatever bytes follow.
pub proof fn law_decode_encode_i16(n: i16, rest: Seq<u8>)
    ensures
        encode_i16(n).len() == 2,
        decode_i16(encode_i16(n) + rest) == n,
{
    law_decode_encode_u16(as_unsigned(n), rest);
}

/// Decoding gives back what was encoded, whatever bytes follow.
pub proof fn law_decode_encode_u32(n: u32, rest: Seq<u8>)
    ensures
        encode_u32(n).len() == 4,
        decode_u32(encode_u32(n) + rest) == n,
{
}

/// Encoding gives back what was decoded.
pub proof fn law_encode_decode_i16(bytes: Seq<u8>)
    requires
        bytes.len() >= 2,
    ensures
        encode_i16(decode_i16(bytes)) == bytes.take(2),
{
    law_encode_decode_u16(bytes);
}

/// Encoding gives back what was decoded.
pub proof fn law_encode_decode_u32(bytes: Seq<u8>)
    requires
        bytes.len() >= 4,
    ensures
        encode_u32(decode_u32(bytes)) == bytes.take(4),
{
    let n = decode_u32(bytes) as int;
    assert(n / 256 == bytes[1] + 256 * bytes[2] + 65536 * bytes[3]);
    assert(n / 65536 == bytes[2] + 256 * bytes[3]);
    assert(n / 16777216 == bytes[3]);
    assert(n % 256 == bytes[0]);
    assert(n / 256 % 256 == bytes[1]);
    assert(n / 65536 % 256 == bytes[2]);
    assert(encode_u32(decode_u32(bytes)) =~= bytes.take(4));
}

/// `byteorder::LittleEndian::read_u16`: reads the first two bytes as a number, low byte first.
#[verifier::external_body]
pub(crate) fn read_u16(bytes: &[u8]) -> (n: u16)
    requires
        bytes@.len() >= 2,
    ensures
        n == decode_u16(bytes@),
{
    LittleEndian::read_u16(bytes)
}

/// `byteorder::LittleEndian::read_i16`: reads the first two bytes as a number in two's complement,
/// low byte first.
#[verifier::external_body]
pub(crate) fn read_i16(bytes: &[u8]) -> (n: i16)
    requires
        bytes@.len() >= 2,
    ensures
        n == decode_i16(bytes@),
{
    LittleEndian::read_i16(bytes)
}

/// `byteorder::LittleEndian::read_u32`: reads the first four bytes as a number, low byte first.
#[verifier::external_body]
pub(crate) fn read_u32(bytes: &[u8]) -> (n: u32)
    requires
        bytes@.len() >= 4,
    ensures
        n == decode_u32(bytes@),
{
    LittleEndian::read_u32(bytes)
}

/// `byteorder::LittleEndian::write_u16`: overwrites the first two bytes with those of the number,
/// low byte first.
#[verifier::external_body]
pub(crate) fn write_u16(bytes: &mut [u8], n: u16)
    requires
        old(bytes)@.len() >= 2,
    ensures
        final(bytes)@ == overlay(old(bytes)@, 0, encode_u16(n)),
{
    LittleEndian::write_u16(bytes, n)
}

/// `byteorder::LittleEndian::write_i16`: overwrites the first two bytes with those of the number in
/// two's complement, low byte first.
#[verifier::external_body]
pub(crate) fn write_i16(bytes: &mut [u8], n: i16)
    requires
        old(bytes)@.len() >= 2,
    ensures
        final(bytes)@ == overlay(old(bytes)@, 0, encode_i16(n)),
{
    LittleEndian::write_i16(bytes, n)
}

/// `byteorder::LittleEndian::write_u32`: overwrites the first four bytes with those of the number,
/// low byte first.
#[verifier::external_body]
pub(crate) fn write_u32(bytes: &mut [u8], n: u32)
    requires
        old(bytes)@.len() >= 4,
    ensures
        final(bytes)@ == overlay(old(bytes)@, 0, encode_u32(n)),
{
    LittleEndian::write_u32(bytes, n)
}

} // verus!
