//! What the compression algorithms do to octets.
use crate::errors::Error;
use crate::packet::{CompressedData, CompressedModel};
use crate::types::CompressionAlgorithm;
use flate2::read::{DeflateDecoder, ZlibDecoder};
use flate2::write::{DeflateEncoder, ZlibEncoder};
use flate2::Compression;
use std::io::{Read, Write};
use vstd::prelude::*;
use vstd::slice::slice_to_vec;

verus! {

/// The error of the compressor's streams.
#[verifier::external_type_specification]
#[verifier::external_body]
pub struct ExIoError(std::io::Error);

/// The raw DEFLATE stream that `flate2::write::DeflateEncoder` makes of octets at
/// the default level; `None` where it fails.
pub uninterp spec fn deflate_encoded(data: Seq<u8>) -> Option<Seq<u8>>;

/// What `flate2::read::DeflateDecoder` reads from the stream at the head of some
/// octets; `None` where it fails.
pub uninterp spec fn deflate_decoded(data: Seq<u8>) -> Option<Seq<u8>>;

/// The zlib stream that `flate2::write::ZlibEncoder` makes of octets at the default
/// level; `None` where it fails.
pub uninterp spec fn zlib_encoded(data: Seq<u8>) -> Option<Seq<u8>>;

/// What `flate2::read::ZlibDecoder` reads from the stream at the head of some
/// octets; `None` where it fails.
pub uninterp spec fn zlib_decoded(data: Seq<u8>) -> Option<Seq<u8>>;

/// Runs `flate2::write::DeflateEncoder` over all of `data`, at the default level,
/// into memory. Claimed: the outcome depends on `data` alone, and the decoder reads
/// `data` back from what the encoder wrote.
#[verifier::external_body]
fn deflate_encode(data: &[u8]) -> (r: Result<Vec<u8>, std::io::Error>)
    ensures
        match r {
            Ok(out) => deflate_encoded(data@) == Some(out@) && deflate_decoded(out@) == Some(data@),
            Err(_) => deflate_encoded(data@) is None,
        },
{
    let mut encoder = DeflateEncoder::new(Vec::new(), Compression::default());
    encoder.write_all(data)?;
    encoder.finish()
}

/// Runs `flate2::read::DeflateDecoder` over `data` to the end of the stream.
/// Claimed: the outcome depends on `data` alone.
#[verifier::external_body]
fn deflate_decode(data: &[u8]) -> (r: Result<Vec<u8>, std::io::Error>)
    ensures
        match r {
            Ok(out) => deflate_decoded(data@) == Some(out@),
            Err(_) => deflate_decoded(data@) is None,
        },
{
    let mut out = Vec::new();
    DeflateDecoder::new(data).read_to_end(&mut out)?;
    Ok(out)
}

/// Runs `flate2::write::ZlibEncoder` over all of `data`, at the default level, into
/// memory. Claimed: the outcome depends on `data` alone, and the decoder reads
/// `data` back from what the encoder wrote.
#[verifier::external_body]
fn zlib_encode(data: &[u8]) -> (r: Result<Vec<u8>, std::io::Error>)
    ensures
        match r {
            Ok(out) => zlib_encoded(data@) == Some(out@) && zlib_decoded(out@) == Some(data@),
            Err(_) => zlib_encoded(data@) is None,
        },
{
    let mut encoder = ZlibEncoder::new(Vec::new(), Compression::default());
    encoder.write_all(data)?;
    encoder.finish()
}

/// Runs `flate2::read::ZlibDecoder` over `data` to the end of the stream. Claimed:
/// the outcome depends on `data` alone.
#[verifier::external_body]
fn zlib_decode(data: &[u8]) -> (r: Result<Vec<u8>, std::io::Error>)
    ensures
        match r {
            Ok(out) => zlib_decoded(data@) == Some(out@),
            Err(_) => zlib_decoded(data@) is None,
        },
{
    let mut out = Vec::new();
    ZlibDecoder::new(data).read_to_end(&mut out)?;
    Ok(out)
}

/// What a stream codec gave, or the error that stands for its failure.
pub open spec fn or_error(out: Option<Seq<u8>>, error: Error) -> Result<Seq<u8>, Error> {
    match out {
        Some(s) => Ok(s),
        None => Err(error),
    }
}

/// What an algorithm makes of octets.
pub open spec fn compressed(alg: CompressionAlgorithm, data: Seq<u8>) -> Result<Seq<u8>, Error> {
    match alg {
        CompressionAlgorithm::Uncompressed => Ok(data),
        CompressionAlgorithm::ZIP => or_error(deflate_encoded(data), Error::Compression),
        CompressionAlgorithm::ZLIB => or_error(zlib_encoded(data), Error::Compression),
        CompressionAlgorithm::BZip2 => Err(Error::UnimplementedBZip2),
        CompressionAlgorithm::Private10 => Err(Error::UnsupportedPrivate10),
    }
}

/// What an algorithm reads back from octets.
pub open spec fn decompressed(alg: CompressionAlgorithm, data: Seq<u8>) -> Result<
    Seq<u8>,
    Error,
> {
    match alg {
        CompressionAlgorithm::Uncompressed => Ok(data),
        CompressionAlgorithm::ZIP => or_error(deflate_decoded(data), Error::Decompression),
        CompressionAlgorithm::ZLIB => or_error(zlib_decoded(data), Error::Decompression),
        CompressionAlgorithm::BZip2 => Err(Error::UnimplementedBZip2),
        CompressionAlgorithm::Private10 => Err(Error::UnsupportedPrivate10),
    }
}

/// Compresses octets. What comes out decompresses to what went in.
pub fn compress_bytes(alg: CompressionAlgorithm, data: &[u8]) -> (r: Result<Vec<u8>, Error>)
    ensures
        match compressed(alg, data@) {
            Ok(out) => {
                &&& r matches Ok(x) && x@ == out
                &&& decompressed(alg, out) == Ok::<Seq<u8>, Error>(data@)
            },
            Err(e) => r == Err::<Vec<u8>, Error>(e),
        },
{
    match alg {
        CompressionAlgorithm::Uncompressed => Ok(slice_to_vec(data)),
        CompressionAlgorithm::ZIP => match deflate_encode(data) {
            Ok(out) => Ok(out),
            Err(_) => Err(Error::Compression),
        },
        CompressionAlgorithm::ZLIB => match zlib_encode(data) {
            Ok(out) => Ok(out),
            Err(_) => Err(Error::Compression),
        },
        CompressionAlgorithm::BZip2 => Err(Error::UnimplementedBZip2),
        CompressionAlgorithm::Private10 => Err(Error::UnsupportedPrivate10),
    }
}

/// Decompresses octets.
pub fn decompress_bytes(alg: CompressionAlgorithm, data: &[u8]) -> (r: Result<Vec<u8>, Error>)
    ensures
        match decompressed(alg, data@) {
            Ok(out) => r matches Ok(x) && x@ == out,
            Err(e) => r == Err::<Vec<u8>, Error>(e),
        },
{
    match alg {
        CompressionAlgorithm::Uncompressed => Ok(slice_to_vec(data)),
        CompressionAlgorithm::ZIP => match deflate_decode(data) {
            Ok(out) => Ok(out),
            Err(_) => Err(Error::Decompression),
        },
        CompressionAlgorithm::ZLIB => match zlib_decode(data) {
            Ok(out) => Ok(out),
            Err(_) => Err(Error::Decompression),
        },
        CompressionAlgorithm::BZip2 => Err(Error::UnimplementedBZip2),
        CompressionAlgorithm::Private10 => Err(Error::UnsupportedPrivate10),
    }
}

impl CompressedModel {
    /// What the packet's content decompresses to.
    pub open spec fn content(self) -> Result<Seq<u8>, Error> {
        decompressed(self.algorithm, self.data)
    }
}

impl CompressedData {
    /// Decompresses the packet's content.
    pub fn decompress(&self) -> (r: Result<Vec<u8>, Error>)
        ensures
            match self@.content() {
                Ok(out) => r matches Ok(x) && x@ == out,
                Err(e) => r == Err::<Vec<u8>, Error>(e),
            },
    {
        decompress_bytes(self.algorithm, self.data.as_slice())
    }
}

/// Each algorithm is what it is called: the one keeps the octets, two are the two formats
/// of the compressor, and two are refused.
pub proof fn law_each_algorithm(alg: CompressionAlgorithm, data: Seq<u8>)
    ensures
        match alg {
            CompressionAlgorithm::Uncompressed => {
                &&& compressed(alg, data) == Ok::<Seq<u8>, Error>(data)
                &&& decompressed(alg, data) == Ok::<Seq<u8>, Error>(data)
            },
            CompressionAlgorithm::ZIP => {
                &&& compressed(alg, data) == match deflate_encoded(data) {
                    Some(x) => Ok(x),
                    None => Err(Error::Compression),
                }
                &&& decompressed(alg, data) == match deflate_decoded(data) {
                    Some(x) => Ok(x),
                    None => Err(Error::Decompression),
                }
            },
            CompressionAlgorithm::ZLIB => {
                &&& compressed(alg, data) == match zlib_encoded(data) {
                    Some(x) => Ok(x),
                    None => Err(Error::Compression),
                }
                &&& decompressed(alg, data) == match zlib_decoded(data) {
                    Some(x) => Ok(x),
                    None => Err(Error::Decompression),
                }
            },
            CompressionAlgorithm::BZip2 => {
                &&& compressed(alg, data) == Err::<Seq<u8>, Error>(Error::UnimplementedBZip2)
                &&& decompressed(alg, data) == Err::<Seq<u8>, Error>(Error::UnimplementedBZip2)
            },
            CompressionAlgorithm::Private10 => {
                &&& compressed(alg, data) == Err::<Seq<u8>, Error>(Error::UnsupportedPrivate10)
                &&& decompressed(alg, data) == Err::<Seq<u8>, Error>(Error::UnsupportedPrivate10)
            },
        },
{
}

} // verus!
