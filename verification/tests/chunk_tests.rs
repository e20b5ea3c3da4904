use std::io::Read;

use rcompact::chunk::{ChunkData, CompressionType};
use rcompact::error::CodecError;

fn sector(length: u32, ctype: u8, data: &[u8]) -> Vec<u8> {
    let mut out = Vec::new();
    out.extend_from_slice(&length.to_be_bytes());
    out.push(ctype);
    out.extend_from_slice(data);
    out
}

#[test]
fn parse_reads_prefix_and_tail() {
    let s = sector(6, 3, b"hello padding");
    let cd = ChunkData::parse(&s).unwrap();
    assert_eq!(cd.compression_type, CompressionType::Uncompressed);
    assert_eq!(cd.length(), 5);
    assert_eq!(cd.data, b"hello padding");
}

#[test]
fn parse_rejects_short_and_zero_length() {
    assert_eq!(ChunkData::parse(&vec![0u8; 4]).unwrap_err(), CodecError::UnexpectedEof);
    let s = sector(0, 3, b"");
    assert_eq!(ChunkData::parse(&s).unwrap_err(), CodecError::UnexpectedEof);
}

#[test]
fn parse_rejects_unknown_compression() {
    let s = sector(2, 4, b"x");
    assert_eq!(ChunkData::parse(&s).unwrap_err(), CodecError::UnknownCompression);
    let s = sector(2, 0, b"x");
    assert_eq!(ChunkData::parse(&s).unwrap_err(), CodecError::UnknownCompression);
}

#[test]
fn decompress_zlib_data() {
    let mut enc = flate2::read::ZlibEncoder::new(&b"zlib body"[..], flate2::Compression::new(3));
    let mut z = Vec::new();
    enc.read_to_end(&mut z).unwrap();
    let s = sector(z.len() as u32 + 1, 2, &z);
    let cd = ChunkData::parse(&s).unwrap();
    assert_eq!(cd.decompress().unwrap(), b"zlib body");
}

#[test]
fn decompress_rejects_truncated_declared_length() {
    let s = sector(100, 3, b"short");
    let cd = ChunkData::parse(&s).unwrap();
    assert_eq!(cd.decompress().unwrap_err(), CodecError::UnexpectedEof);
}

#[test]
fn decompress_rejects_corrupt_stream() {
    let s = sector(6, 2, b"not a zlib stream");
    let cd = ChunkData::parse(&s).unwrap();
    assert_eq!(cd.decompress().unwrap_err(), CodecError::CompressionError);
}

#[test]
fn compression_type_bytes_round_trip() {
    for (ct, b) in [
        (CompressionType::GZip, 1u8),
        (CompressionType::Zlib, 2),
        (CompressionType::Uncompressed, 3),
    ] {
        assert_eq!(ct.to_byte(), b);
        assert_eq!(CompressionType::from_byte(b), Some(ct));
    }
    assert_eq!(CompressionType::from_byte(4), None);
    assert_eq!(CompressionType::from_byte(0), None);
}

#[test]
fn error_descriptions_name_each_kind() {
    assert_eq!(CodecError::UnexpectedEof.describe(), "unexpected end of input");
    assert_eq!(CodecError::UnknownCompression.describe(), "unknown compression type");
    assert_eq!(CodecError::MalformedRegion.describe(), "malformed region");
    assert_eq!(CodecError::MalformedBin.describe(), "malformed bin stream");
    assert_eq!(CodecError::ContractViolation.describe(), "chunk descriptor out of range");
    assert_eq!(CodecError::CompressionError.describe(), "compression codec failure");
}
