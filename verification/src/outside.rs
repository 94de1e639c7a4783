//! The calls into outside crates.
//!
//! Nothing in this module is proved: each function makes one outside
//! computation, and its contract says what is believed of it.
use std::io::{Read, Write};
use vstd::prelude::*;

verus! {

/// The error type of the compression streams. Nothing is known of a value of
/// it; it is only carried through.
#[verifier::external_type_specification]
#[verifier::external_body]
pub struct ExIoError(std::io::Error);

/// A number divided by the CRC-32 (IEEE) polynomial, `n` bits further.
pub open spec fn crc32_bits(x: u32, n: nat) -> u32
    decreases n,
{
    if n == 0 {
        x
    } else {
        let y = crc32_bits(x, (n - 1) as nat);
        if y & 1 == 1 {
            (y >> 1) ^ 0xEDB8_8320
        } else {
            y >> 1
        }
    }
}

/// The remainder after some bytes: each is added to the low end of what was
/// there, and makes eight bits.
pub open spec fn crc32_remainder(bytes: Seq<u8>) -> u32
    decreases bytes.len(),
{
    if bytes.len() == 0 {
        0xFFFF_FFFF
    } else {
        crc32_bits(crc32_remainder(bytes.drop_last()) ^ bytes.last() as u32, 8)
    }
}

/// The CRC-32 (IEEE) checksum of a byte string: the remainder with all bits
/// flipped.
pub open spec fn crc32(bytes: Seq<u8>) -> u32 {
    crc32_remainder(bytes) ^ 0xFFFF_FFFF
}

/// What `zstd::Encoder` has written once it has been given `bytes`, at
/// compression level `level`, and has been flushed.
pub uninterp spec fn zstd_compressed(bytes: Seq<u8>, level: i32) -> Seq<u8>;

/// What `zstd::Decoder` hands out of `file`, read byte by byte, before it
/// comes to the end or fails.
pub uninterp spec fn zstd_decompressed(file: Seq<u8>) -> Seq<u8>;

/// Calls `crc32fast::hash`, which is documented to compute the CRC-32 (IEEE)
/// checksum of the bytes.
#[verifier::external_body]
pub(crate) fn checksum(bytes: &[u8]) -> (r: u32)
    ensures
        r == crc32(bytes@),
{
    crc32fast::hash(bytes)
}

/// Feeds `bytes` to a `zstd::Encoder` and flushes it. Flushing makes all that
/// went in decodable; the frame is not ended. Where the stream reports no
/// error, what it wrote depends on the bytes and the level alone, and a
/// `zstd::Decoder` gives the bytes back. When the stream reports an error is
/// not stated.
#[verifier::external_body]
pub(crate) fn compress(bytes: &[u8], level: i32) -> (r: Result<Vec<u8>, std::io::Error>)
    ensures
        r matches Ok(file) ==> file@ == zstd_compressed(bytes@, level) && zstd_decompressed(
            file@,
        ) == bytes@,
{
    let mut file: Vec<u8> = Vec::new();
    let mut encoder = zstd::Encoder::new(&mut file, level)?;
    encoder.write_all(bytes)?;
    encoder.flush()?;
    drop(encoder);
    Ok(file)
}

/// Reads a `zstd::Decoder` over `file` up to its end or its first error, and
/// keeps what came before. That depends on the file alone, and is known by the
/// name `zstd_decompressed`. An error is returned only where no decoder could
/// be set up; when that is so is not stated.
#[verifier::external_body]
pub(crate) fn decompress(file: &[u8]) -> (r: Result<Vec<u8>, std::io::Error>)
    ensures
        r matches Ok(bytes) ==> bytes@ == zstd_decompressed(file@),
{
    let decoder = zstd::Decoder::new(file)?;
    Ok(decoder.bytes().map_while(Result::ok).collect())
}

} // verus!
