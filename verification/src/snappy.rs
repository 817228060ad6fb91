//! Snappy compression.

use snap::raw::{decompress_len, Decoder, Encoder};
use vstd::prelude::*;

verus! {

/// `snap::raw::Encoder`, which keeps tables that it clears before it uses them.
#[verifier::external_type_specification]
#[verifier::external_body]
pub struct ExEncoder(snap::raw::Encoder);

/// `snap::raw::Decoder`, which keeps nothing.
#[verifier::external_type_specification]
#[verifier::external_body]
pub struct ExDecoder(snap::raw::Decoder);

/// What `snap::raw::Encoder::compress` makes of `input`.
pub uninterp spec fn snap_compressed(input: Seq<u8>) -> Seq<u8>;

/// What `snap::raw::Decoder::decompress` makes of `input`, nothing if that is no compressed data.
pub uninterp spec fn snap_decompressed(input: Seq<u8>) -> Option<Seq<u8>>;

/// The maximum length of `len` bytes after compression, 0 if that is more than Snappy allows.
pub open spec fn max_compressed_len(len: nat) -> nat {
    if 32 + len + len / 6 > u32::MAX {
        0
    } else {
        32 + len + len / 6
    }
}

/// The number at the start of `bytes`, seven bits to a byte and the low ones first, whose last byte
/// is the first one under 128.
pub open spec fn varint(bytes: Seq<u8>) -> Option<nat>
    decreases bytes.len(),
{
    if bytes.len() == 0 {
        None
    } else if bytes[0] < 128 {
        Some(bytes[0] as nat)
    } else {
        match varint(bytes.skip(1)) {
            Some(high) => Some((bytes[0] - 128) as nat + 128 * high),
            None => None,
        }
    }
}

/// The length of the compressed data `input` after decompression, as its header has it: a number of
/// at most five bytes and 32 bits.
pub open spec fn decompressed_len(input: Seq<u8>) -> Option<nat> {
    let header = if input.len() < 5 {
        input
    } else {
        input.take(5)
    };
    if input.len() == 0 {
        Some(0)
    } else {
        match varint(header) {
            Some(len) => if len <= u32::MAX {
                Some(len)
            } else {
                None
            },
            None => None,
        }
    }
}

/// `snap::raw::Encoder::new`: returns an encoder.
pub assume_specification[ snap::raw::Encoder::new ]() -> (encoder: Encoder)
;

/// `snap::raw::Decoder::new`: returns a decoder.
pub assume_specification[ snap::raw::Decoder::new ]() -> (decoder: Decoder)
;

/// `snap::raw::max_compress_len`: returns an upper bound on the length of the compressed data.
pub assume_specification[ snap::raw::max_compress_len ](input_len: usize) -> (len: usize)
    ensures
        len == max_compressed_len(input_len as nat),
;

/// `snap::raw::decompress_len`: reads the header of the compressed data. An error is given as its
/// text.
#[verifier::external_body]
pub(crate) fn read_decompressed_len(input: &[u8]) -> (result: Result<usize, String>)
    ensures
        match decompressed_len(input@) {
            Some(len) => result == Ok::<usize, String>(len as usize),
            None => result is Err,
        },
{
    match decompress_len(input) {
        Ok(len) => Ok(len),
        Err(error) => Err(error.to_string()),
    }
}

/// `snap::raw::Encoder::compress`: writes the compressed data to the start of `output` and returns
/// its length, which is never 0. It fails only if `output` is shorter than `max_compress_len` asks
/// for, or the input is too long for that. An error is given as its text.
///
/// The compressed data depends on the input alone. Its header has the length of the input, and
/// decompression gives the input back.
#[verifier::external_body]
pub(crate) fn compress(encoder: &mut Encoder, input: &[u8], output: &mut [u8]) -> (result: Result<
    usize,
    String,
>)
    ensures
        final(output)@.len() == old(output)@.len(),
        result is Ok <==> 0 < max_compressed_len(input@.len()) <= old(output)@.len(),
        result matches Ok(len) ==> {
            &&& 0 < len <= final(output)@.len()
            &&& final(output)@.take(len as int) == snap_compressed(input@)
            &&& decompressed_len(final(output)@.take(len as int)) == Some(input@.len())
            &&& snap_decompressed(final(output)@.take(len as int)) == Some(input@)
        },
{
    match encoder.compress(input, output) {
        Ok(len) => Ok(len),
        Err(error) => Err(error.to_string()),
    }
}

/// `snap::raw::Decoder::decompress`: writes the decompressed data to the start of `output` and
/// returns its length, which is the one in the header. It fails if the input is no compressed data,
/// or `output` is shorter than the decompressed data. An error is given as its text.
///
/// The decompressed data depends on the input alone. What is left in `output` on failure is not
/// stated.
#[verifier::external_body]
pub(crate) fn decompress(decoder: &mut Decoder, input: &[u8], output: &mut [u8]) -> (result: Result<
    usize,
    String,
>)
    ensures
        final(output)@.len() == old(output)@.len(),
        result is Ok <==> {
            &&& snap_decompressed(input@) is Some
            &&& decompressed_len(input@) matches Some(len) && len <= old(output)@.len()
        },
        result matches Ok(len) ==> {
            &&& len <= final(output)@.len()
            &&& decompressed_len(input@) == Some(len as nat)
            &&& snap_decompressed(input@) == Some(final(output)@.take(len as int))
        },
{
    match decoder.decompress(input, output) {
        Ok(len) => Ok(len),
        Err(error) => Err(error.to_string()),
    }
}

} // verus!
