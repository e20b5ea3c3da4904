use std::io::Read;

use rcompact::error::CodecError;
use rcompact::pipeline::{compact, decompact};

fn zlib_bytes(payload: &[u8]) -> Vec<u8> {
    let mut enc = flate2::read::ZlibEncoder::new(payload, flate2::Compression::new(3));
    let mut out = Vec::new();
    enc.read_to_end(&mut out).unwrap();
    out
}

fn gzip_bytes(payload: &[u8]) -> Vec<u8> {
    let mut enc = flate2::read::GzEncoder::new(payload, flate2::Compression::new(3));
    let mut out = Vec::new();
    enc.read_to_end(&mut out).unwrap();
    out
}

/// A region image with one chunk: slot `pos` at `loc_sector`, spanning
/// `size_sectors`, carrying `[length BE | ctype | data]`.
fn one_chunk_region(
    pos: usize,
    timestamp: u32,
    loc_sector: u32,
    size_sectors: u8,
    length: u32,
    ctype: u8,
    data: &[u8],
) -> Vec<u8> {
    let location = loc_sector as usize * 4096;
    let mut buf = vec![0u8; location + size_sectors as usize * 4096];
    let locdata = (loc_sector << 8) | size_sectors as u32;
    buf[4 * pos..4 * pos + 4].copy_from_slice(&locdata.to_be_bytes());
    buf[4096 + 4 * pos..4096 + 4 * pos + 4].copy_from_slice(&timestamp.to_be_bytes());
    buf[location..location + 4].copy_from_slice(&length.to_be_bytes());
    buf[location + 4] = ctype;
    buf[location + 5..location + 5 + data.len()].copy_from_slice(data);
    buf
}

fn bin_record(pos: u32, timestamp: u32, payload: &[u8]) -> Vec<u8> {
    let mut out = Vec::new();
    out.extend_from_slice(&pos.to_le_bytes());
    out.extend_from_slice(&timestamp.to_be_bytes());
    out.extend_from_slice(&(payload.len() as u64).to_le_bytes());
    out.extend_from_slice(payload);
    out
}

#[test]
fn single_zlib_chunk_compacts_to_one_record() {
    // one chunk at position 0, timestamp 0x100, location sector 16,
    // two sectors, holding zlib("hello")
    let z = zlib_bytes(b"hello");
    let region = one_chunk_region(0, 0x0000_0100, 16, 2, z.len() as u32 + 1, 2, &z);
    let out = compact(region).unwrap();

    let mut expected = Vec::new();
    expected.extend_from_slice(&0u32.to_le_bytes());
    expected.extend_from_slice(&0x0000_0100u32.to_be_bytes());
    expected.extend_from_slice(&5u64.to_le_bytes());
    expected.extend_from_slice(b"hello");
    assert_eq!(out, expected);
}

#[test]
fn two_records_decompact_to_sorted_bodies() {
    let mut stream = bin_record(0, 1, b"A");
    stream.extend_from_slice(&bin_record(5, 2, b"BBBB"));
    let out = decompact(&stream).unwrap();

    assert_eq!(out.len(), 8192 + 2 * 4096);
    let ld0 = u32::from_be_bytes(out[0..4].try_into().unwrap());
    let ld5 = u32::from_be_bytes(out[20..24].try_into().unwrap());
    assert_ne!(ld0, 0);
    assert_ne!(ld5, 0);
    // first body at byte 8192 (sector 2), one sector; second right behind
    assert_eq!(ld0 >> 8, 2);
    assert_eq!(ld0 & 0xFF, 1);
    assert_eq!(ld5 >> 8, 3);
    assert_eq!(ld5 & 0xFF, 1);
    // timestamps in slots 0 and 5
    assert_eq!(u32::from_be_bytes(out[4096..4100].try_into().unwrap()), 1);
    assert_eq!(u32::from_be_bytes(out[4096 + 20..4096 + 24].try_into().unwrap()), 2);
    // each body: BE length = compressed + 1, then the zlib type byte
    for (start, payload) in [(8192usize, &b"A"[..]), (8192 + 4096, &b"BBBB"[..])] {
        let z = zlib_bytes(payload);
        let declared = u32::from_be_bytes(out[start..start + 4].try_into().unwrap());
        assert_eq!(declared as usize, z.len() + 1);
        assert_eq!(out[start + 4], 2);
        assert_eq!(&out[start + 5..start + 5 + z.len()], &z[..]);
        // padded with zeros up to the sector boundary
        for b in &out[start + 5 + z.len()..start + 4096] {
            assert_eq!(*b, 0);
        }
    }
}

#[test]
fn compact_of_short_input_is_unexpected_eof() {
    let out = compact(vec![0u8; 100]);
    assert_eq!(out.unwrap_err(), CodecError::UnexpectedEof);
}

#[test]
fn decompact_of_truncated_payload_is_unexpected_eof() {
    // a record declaring 10 payload bytes with only 3 present
    let mut stream = Vec::new();
    stream.extend_from_slice(&0u32.to_le_bytes());
    stream.extend_from_slice(&0u32.to_be_bytes());
    stream.extend_from_slice(&10u64.to_le_bytes());
    stream.extend_from_slice(b"abc");
    let out = decompact(&stream);
    assert_eq!(out.unwrap_err(), CodecError::UnexpectedEof);
}

#[test]
fn decompact_of_duplicate_position_is_malformed_bin() {
    let mut stream = bin_record(3, 1, b"x");
    stream.extend_from_slice(&bin_record(3, 2, b"y"));
    let out = decompact(&stream);
    assert_eq!(out.unwrap_err(), CodecError::MalformedBin);
}

#[test]
fn decompact_of_large_position_is_malformed_bin() {
    let stream = bin_record(1024, 1, b"x");
    let out = decompact(&stream);
    assert_eq!(out.unwrap_err(), CodecError::MalformedBin);
}

#[test]
fn empty_region_and_empty_stream() {
    // all 1024 slots zero: compact emits no records
    let region = vec![0u8; 8192];
    let out = compact(region).unwrap();
    assert!(out.is_empty());
    // zero records: decompact emits the 8192-byte zero table
    let out = decompact(&Vec::new()).unwrap();
    assert_eq!(out, vec![0u8; 8192]);
}

#[test]
fn gzip_chunk_at_last_position() {
    // a single chunk at position 1023, one sector, gzip compressed
    let g = gzip_bytes(b"tail chunk");
    let region = one_chunk_region(1023, 7, 2, 1, g.len() as u32 + 1, 1, &g);
    let out = compact(region).unwrap();
    let mut expected = bin_record(1023, 7, b"tail chunk");
    expected[4..8].copy_from_slice(&7u32.to_be_bytes());
    assert_eq!(out, expected);
}

#[test]
fn uncompressed_chunk_passes_through() {
    let region = one_chunk_region(4, 9, 2, 1, 6, 3, b"plain");
    let out = compact(region).unwrap();
    assert_eq!(out, bin_record(4, 9, b"plain"));
}

#[test]
fn uncompressed_chunk_filling_its_sector() {
    // declared length 4092: the five-byte prefix plus 4091 data bytes
    // fill the sector exactly
    let data = vec![0x5Au8; 4091];
    let region = one_chunk_region(0, 1, 2, 1, 4092, 3, &data);
    assert_eq!(region.len(), 8192 + 4096);
    let out = compact(region).unwrap();
    assert_eq!(out, bin_record(0, 1, &data));
}

#[test]
fn uncompressed_chunk_one_byte_short_of_its_sector() {
    // declared length 4091: one byte of zero padding remains
    let data = vec![0x5Au8; 4090];
    let region = one_chunk_region(0, 1, 2, 1, 4091, 3, &data);
    let out = compact(region).unwrap();
    assert_eq!(out, bin_record(0, 1, &data));
}

#[test]
fn unknown_compression_byte_is_rejected() {
    let region = one_chunk_region(0, 1, 2, 1, 4, 7, b"xyz");
    let out = compact(region);
    assert_eq!(out.unwrap_err(), CodecError::UnknownCompression);
}

#[test]
fn compact_after_decompact_round_trips_records() {
    let mut stream = bin_record(9, 100, b"first payload");
    stream.extend_from_slice(&bin_record(2, 200, b"second"));
    stream.extend_from_slice(&bin_record(700, 300, &vec![0u8; 5000]));
    let region = decompact(&stream).unwrap();
    let back = compact(region).unwrap();
    assert_eq!(back, stream);
}

#[test]
fn decompact_after_compact_preserves_chunks() {
    let z = zlib_bytes(b"round trip payload");
    let region = one_chunk_region(11, 0xDEAD_BEEF, 3, 1, z.len() as u32 + 1, 2, &z);
    let stream = compact(region).unwrap();
    let region2 = decompact(&stream).unwrap();
    let stream2 = compact(region2).unwrap();
    assert_eq!(stream2, stream);
    assert_eq!(stream, bin_record(11, 0xDEAD_BEEF, b"round trip payload"));
}

#[test]
fn compact_of_chunk_past_end_is_malformed_region() {
    // slot 0 declares a chunk at sector 2 but the image ends at the table
    let mut region = vec![0u8; 8192];
    region[0..4].copy_from_slice(&[0, 0, 2, 1]);
    let out = compact(region);
    assert_eq!(out.unwrap_err(), CodecError::MalformedRegion);
}

#[test]
fn decompact_of_incompressible_payload_is_contract_violation() {
    // a pseudo-random payload beyond 1 MiB cannot compress into the
    // 8-bit sector count of a chunk descriptor
    let mut state: u64 = 0x2545_F491_4F6C_DD1D;
    let mut payload = Vec::with_capacity(1_100_000);
    for _ in 0..1_100_000 {
        state = state.wrapping_mul(6364136223846793005).wrapping_add(1442695040888963407);
        payload.push((state >> 56) as u8);
    }
    let stream = bin_record(0, 0, &payload);
    let out = decompact(&stream);
    assert_eq!(out.unwrap_err(), CodecError::ContractViolation);
}
