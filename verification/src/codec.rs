//! Trusted boundary to the outside compression codecs.
//!
//! Each codec's output is named by an uninterpreted spec function: the byte
//! result of compressing or decompressing depends on the input bytes alone,
//! so the names stand for those functions and the wrappers' contracts state
//! how the names relate (decoding what was encoded yields the input back).

use vstd::prelude::*;

verus! {

/// What flate2's zlib encoder at level 3 produces for the given input.
pub uninterp spec fn zlib_compress_of(data: Seq<u8>) -> Seq<u8>;

/// What flate2's zlib decoder yields for the given input, or `None` where
/// the input is not a well-formed zlib stream.
pub uninterp spec fn zlib_decompress_of(data: Seq<u8>) -> Option<Seq<u8>>;

/// What flate2's gzip decoder yields for the given input, or `None` where
/// the input is not a well-formed gzip stream.
pub uninterp spec fn gzip_decompress_of(data: Seq<u8>) -> Option<Seq<u8>>;

/// What zstd's encoder at level 3 produces for the given input.
pub uninterp spec fn zstd_compress_of(data: Seq<u8>) -> Seq<u8>;

/// What zstd's decoder yields for the given input, or `None` where the
/// input is not a well-formed zstd stream.
pub uninterp spec fn zstd_decompress_of(data: Seq<u8>) -> Option<Seq<u8>>;

/// What lz4_flex's frame encoder produces for the given input.
pub uninterp spec fn lz4_compress_of(data: Seq<u8>) -> Seq<u8>;

/// What lz4_flex's frame decoder yields for the given input, or `None`
/// where the input is not a well-formed lz4 frame.
pub uninterp spec fn lz4_decompress_of(data: Seq<u8>) -> Option<Seq<u8>>;

/// Relies on flate2::read::ZlibEncoder at level 3: the result is a function
/// of the input bytes alone, and flate2::read::ZlibDecoder inverts it.
/// Reading from an in-memory slice cannot fail.
#[verifier::external_body]
pub(crate) fn zlib_compress(data: &Vec<u8>) -> (r: Vec<u8>)
    ensures
        r@ == zlib_compress_of(data@),
        zlib_decompress_of(r@) == Some(data@),
{
    let mut enc = flate2::read::ZlibEncoder::new(&data[..], flate2::Compression::new(3));
    let mut out = Vec::new();
    std::io::Read::read_to_end(&mut enc, &mut out).expect("compressing an in-memory slice");
    out
}

/// Relies on flate2::read::ZlibDecoder: the result is a function of the
/// input bytes alone; a malformed zlib stream is rejected.
#[verifier::external_body]
pub(crate) fn zlib_decompress(data: &Vec<u8>) -> (r: Option<Vec<u8>>)
    ensures
        match r {
            Some(v) => zlib_decompress_of(data@) == Some(v@),
            None => zlib_decompress_of(data@) is None,
        },
{
    let mut dec = flate2::read::ZlibDecoder::new(&data[..]);
    let mut out = Vec::new();
    match std::io::Read::read_to_end(&mut dec, &mut out) {
        Ok(_) => Some(out),
        Err(_) => None,
    }
}

/// Relies on flate2::read::GzDecoder: the result is a function of the
/// input bytes alone; a malformed gzip stream is rejected.
#[verifier::external_body]
pub(crate) fn gzip_decompress(data: &Vec<u8>) -> (r: Option<Vec<u8>>)
    ensures
        match r {
            Some(v) => gzip_decompress_of(data@) == Some(v@),
            None => gzip_decompress_of(data@) is None,
        },
{
    let mut dec = flate2::read::GzDecoder::new(&data[..]);
    let mut out = Vec::new();
    match std::io::Read::read_to_end(&mut dec, &mut out) {
        Ok(_) => Some(out),
        Err(_) => None,
    }
}

/// Relies on zstd::stream::encode_all at level 3: the result is a function
/// of the input bytes alone, and zstd::stream::decode_all inverts it.
/// Encoding from an in-memory slice cannot fail.
#[verifier::external_body]
pub(crate) fn zstd_compress(data: &Vec<u8>) -> (r: Vec<u8>)
    ensures
        r@ == zstd_compress_of(data@),
        zstd_decompress_of(r@) == Some(data@),
{
    zstd::stream::encode_all(&data[..], 3).expect("compressing an in-memory slice")
}

/// Relies on zstd::stream::decode_all: the result is a function of the
/// input bytes alone; a malformed zstd stream is rejected.
#[verifier::external_body]
pub(crate) fn zstd_decompress(data: &Vec<u8>) -> (r: Option<Vec<u8>>)
    ensures
        match r {
            Some(v) => zstd_decompress_of(data@) == Some(v@),
            None => zstd_decompress_of(data@) is None,
        },
{
    match zstd::stream::decode_all(&data[..]) {
        Ok(out) => Some(out),
        Err(_) => None,
    }
}

/// Relies on lz4_flex::frame::FrameEncoder: the result is a function of the
/// input bytes alone, and lz4_flex::frame::FrameDecoder inverts it.
/// Writing into an in-memory vector cannot fail.
#[verifier::external_body]
pub(crate) fn lz4_compress(data: &Vec<u8>) -> (r: Vec<u8>)
    ensures
        r@ == lz4_compress_of(data@),
        lz4_decompress_of(r@) == Some(data@),
{
    let mut enc = lz4_flex::frame::FrameEncoder::new(Vec::new());
    std::io::Write::write_all(&mut enc, &data[..]).expect("writing into an in-memory vector");
    enc.finish().expect("finishing an in-memory lz4 frame")
}

/// Relies on lz4_flex::frame::FrameDecoder: the result is a function of the
/// input bytes alone; a malformed lz4 frame is rejected.
#[verifier::external_body]
pub(crate) fn lz4_decompress(data: &Vec<u8>) -> (r: Option<Vec<u8>>)
    ensures
        match r {
            Some(v) => lz4_decompress_of(data@) == Some(v@),
            None => lz4_decompress_of(data@) is None,
        },
{
    let mut dec = lz4_flex::frame::FrameDecoder::new(&data[..]);
    let mut out = Vec::new();
    match std::io::Read::read_to_end(&mut dec, &mut out) {
        Ok(_) => Some(out),
        Err(_) => None,
    }
}

} // verus!
