//! The compression of strips.

use crate::encoder::packbits::{pack, packed, unpacked};
use crate::error::{TiffError, TiffResult};
use crate::tags::CompressionMethod;
use vstd::prelude::*;
use vstd::slice::slice_to_vec;

verus! {

/// How hard the Deflate compression tries. It trades compression ratio for speed.
#[derive(Debug, Clone, Copy, PartialEq, Eq, Structural)]
pub enum DeflateLevel {
    /// The fastest compression, with the largest result.
    Fast,
    /// A balance of speed and size.
    Balanced,
    /// The slowest compression, with the smallest result.
    Best,
}

impl DeflateLevel {
    pub open spec fn number(self) -> u32 {
        match self {
            DeflateLevel::Fast => 1,
            DeflateLevel::Balanced => 6,
            DeflateLevel::Best => 9,
        }
    }

    /// The level on the scale from 0, no compression, to 9, the best one.
    pub fn to_u32(&self) -> (level: u32)
        ensures
            level == self.number(),
    {
        match *self {
            DeflateLevel::Fast => 1,
            DeflateLevel::Balanced => 6,
            DeflateLevel::Best => 9,
        }
    }
}

/// How the strips of an image are to be compressed.
#[non_exhaustive]
#[derive(Debug, Clone, Copy, PartialEq, Eq, Structural)]
pub enum Compression {
    Uncompressed,
    PackBits,
    Lzw,
    Deflate(DeflateLevel),
}

impl Compression {
    pub open spec fn spec_method(self) -> CompressionMethod {
        match self {
            Compression::Uncompressed => CompressionMethod::Uncompressed,
            Compression::PackBits => CompressionMethod::PackBits,
            Compression::Lzw => CompressionMethod::LZW,
            Compression::Deflate(_) => CompressionMethod::Deflate,
        }
    }

    /// What a directory says of the compression.
    pub fn method(&self) -> (method: CompressionMethod)
        ensures
            method == self.spec_method(),
    {
        match *self {
            Compression::Uncompressed => CompressionMethod::Uncompressed,
            Compression::PackBits => CompressionMethod::PackBits,
            Compression::Lzw => CompressionMethod::LZW,
            Compression::Deflate(_) => CompressionMethod::Deflate,
        }
    }
}

/// What `weezl::encode::Encoder`, made by `with_tiff_size_switch` for the most significant bit
/// first and for bytes of 8 bits, makes of `data` and an end marker.
pub uninterp spec fn lzw_encoded(data: Seq<u8>) -> Seq<u8>;

/// What `weezl::decode::Decoder`, made by `with_tiff_size_switch` for the most significant bit
/// first and for bytes of 8 bits, makes of `encoded`, or `None` if it fails.
pub uninterp spec fn lzw_decoded(encoded: Seq<u8>) -> Option<Seq<u8>>;

/// What `flate2::write::ZlibEncoder` makes of `data` at compression level `level`.
pub uninterp spec fn zlib_encoded(data: Seq<u8>, level: u32) -> Seq<u8>;

/// What `flate2::read::ZlibDecoder` makes of `encoded`, or `None` if it fails.
pub uninterp spec fn zlib_decoded(encoded: Seq<u8>) -> Option<Seq<u8>>;

/// Calls `weezl::encode::Encoder::with_tiff_size_switch` and lets the encoder write `data` and an
/// end marker into a vector, by `into_stream` and `encode_all`.
///
/// It is taken on trust that this never fails, as the encoder rejects no byte when its bytes have
/// 8 bits and a vector takes every write, that the outcome depends on `data` alone, and that the
/// decoder with the same parameters gives `data` back.
#[verifier::external_body]
fn lzw_encode(data: &[u8]) -> (result: Result<Vec<u8>, std::io::Error>)
    ensures
        result is Ok,
        result->Ok_0@ == lzw_encoded(data@),
        lzw_decoded(result->Ok_0@) == Some(data@),
{
    let mut out = Vec::new();
    let mut encoder =
        weezl::encode::Encoder::with_tiff_size_switch(weezl::BitOrder::Msb, 8);
    let result = encoder.into_stream(&mut out).encode_all(data);
    match result.status {
        Ok(()) => Ok(out),
        Err(error) => Err(error),
    }
}

/// Calls `flate2::write::ZlibEncoder::new` on a vector, writes `data` to the encoder and ends it
/// by `finish`.
///
/// It is taken on trust that this never fails, as the compressor fails on nothing but wrong
/// parameters and output that cannot be stored, and a vector takes every write, that the outcome
/// depends on `data` and `level` alone, and that `flate2::read::ZlibDecoder` gives `data` back.
#[verifier::external_body]
fn zlib_encode(data: &[u8], level: u32) -> (result: Result<Vec<u8>, std::io::Error>)
    requires
        level <= 9,
    ensures
        result is Ok,
        result->Ok_0@ == zlib_encoded(data@, level),
        zlib_decoded(result->Ok_0@) == Some(data@),
{
    let mut encoder =
        flate2::write::ZlibEncoder::new(Vec::new(), flate2::Compression::new(level));
    match std::io::Write::write_all(&mut encoder, data) {
        Ok(()) => encoder.finish(),
        Err(error) => Err(error),
    }
}

/// What becomes of `data` under `compression`.
pub open spec fn encoded(compression: Compression, data: Seq<u8>) -> Seq<u8> {
    match compression {
        Compression::Uncompressed => data,
        Compression::PackBits => packed(data),
        Compression::Lzw => lzw_encoded(data),
        Compression::Deflate(level) => zlib_encoded(data, level.number()),
    }
}

/// What compressed data stands for, or `None` if it stands for nothing.
pub open spec fn decoded(method: CompressionMethod, data: Seq<u8>) -> Option<Seq<u8>> {
    match method {
        CompressionMethod::Uncompressed => Some(data),
        CompressionMethod::PackBits => unpacked(data),
        CompressionMethod::LZW => lzw_decoded(data),
        CompressionMethod::Deflate => zlib_decoded(data),
    }
}

/// Compresses `data`.
pub fn compress(compression: Compression, data: &[u8]) -> (result: TiffResult<Vec<u8>>)
    ensures
        result is Ok,
        result->Ok_0@ == encoded(compression, data@),
        decoded(compression.spec_method(), result->Ok_0@) == Some(data@),
{
    let result = match compression {
        Compression::Uncompressed => Ok(slice_to_vec(data)),
        Compression::PackBits => Ok(pack(data)),
        Compression::Lzw => lzw_encode(data),
        Compression::Deflate(level) => zlib_encode(data, level.to_u32()),
    };
    match result {
        Ok(out) => Ok(out),
        Err(error) => Err(TiffError::IoError(error)),
    }
}

} // verus!
