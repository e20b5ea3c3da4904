use rcompact::error::CodecError;
use rcompact::rpack::{CompactCompression, RpackHeader, RpackReader};

fn rpack_body(records: &[(u32, u32, &[u8])]) -> Vec<u8> {
    let mut out = Vec::new();
    for (pos, ts, payload) in records {
        out.extend_from_slice(&pos.to_le_bytes());
        out.extend_from_slice(&ts.to_be_bytes());
        out.extend_from_slice(&(payload.len() as u64).to_le_bytes());
        out.extend_from_slice(payload);
    }
    out
}

fn rpack_container(ctype: u8, encoded_body: &[u8]) -> Vec<u8> {
    let mut out = vec![0u8; 32];
    out[0] = ctype;
    out.extend_from_slice(encoded_body);
    out
}

fn read_all(reader: &mut RpackReader) -> Vec<(u32, u32, Vec<u8>)> {
    let mut records = Vec::new();
    while let Some((h, payload)) = reader.read_chunk().unwrap() {
        assert_eq!(h.length, payload.len() as u64);
        records.push((h.pos, h.timestamp, payload));
    }
    records
}

#[test]
fn plain_container_round_trips_records() {
    let body = rpack_body(&[(0, 10, b"alpha"), (3, 20, b"bb")]);
    let mut reader = RpackReader::from_reader(rpack_container(0, &body)).unwrap();
    let records = read_all(&mut reader);
    assert_eq!(records.len(), 2);
    assert_eq!(records[0], (0, 10, b"alpha".to_vec()));
    assert_eq!(records[1], (3, 20, b"bb".to_vec()));
}

#[test]
fn zstd_container_is_decoded() {
    let body = rpack_body(&[(1, 5, b"zstd payload")]);
    let encoded = zstd::stream::encode_all(&body[..], 3).unwrap();
    assert_ne!(encoded, body);
    let mut reader = RpackReader::from_reader(rpack_container(1, &encoded)).unwrap();
    let records = read_all(&mut reader);
    assert_eq!(records, vec![(1, 5, b"zstd payload".to_vec())]);
}

#[test]
fn lz4_container_is_decoded() {
    let body = rpack_body(&[(2, 6, b"lz4 payload")]);
    let mut enc = lz4_flex::frame::FrameEncoder::new(Vec::new());
    std::io::Write::write_all(&mut enc, &body).unwrap();
    let encoded = enc.finish().unwrap();
    assert_ne!(encoded, body);
    let mut reader = RpackReader::from_reader(rpack_container(2, &encoded)).unwrap();
    let records = read_all(&mut reader);
    assert_eq!(records, vec![(2, 6, b"lz4 payload".to_vec())]);
}

#[test]
fn compress_emits_real_zstd_and_lz4_streams() {
    let data = b"a longer buffer that compresses down to something else".to_vec();
    let z = CompactCompression::Zstd.compress(&data);
    assert_eq!(zstd::stream::decode_all(&z[..]).unwrap(), data);
    let l = CompactCompression::LZ4.compress(&data);
    let mut dec = lz4_flex::frame::FrameDecoder::new(&l[..]);
    let mut back = Vec::new();
    std::io::Read::read_to_end(&mut dec, &mut back).unwrap();
    assert_eq!(back, data);
    let p = CompactCompression::Uncompressed.compress(&data);
    assert_eq!(p, data);
}

#[test]
fn decompress_inverts_compress() {
    let data = vec![7u8; 10000];
    for ct in [
        CompactCompression::Zstd,
        CompactCompression::LZ4,
        CompactCompression::Uncompressed,
    ] {
        let enc = ct.compress(&data);
        assert_eq!(ct.decompress(&enc).unwrap(), data);
    }
}

#[test]
fn corrupt_outer_stream_is_rejected() {
    let garbage = vec![0xFFu8; 40];
    assert_eq!(
        CompactCompression::Zstd.decompress(&garbage).unwrap_err(),
        CodecError::CompressionError
    );
    assert_eq!(
        CompactCompression::LZ4.decompress(&garbage).unwrap_err(),
        CodecError::CompressionError
    );
}

#[test]
fn short_rpack_header_is_rejected() {
    let err = RpackReader::from_reader(vec![0u8; 31]).unwrap_err();
    assert_eq!(err, CodecError::UnexpectedEof);
}

#[test]
fn unknown_rpack_codec_byte_is_rejected() {
    let err = RpackReader::from_reader(rpack_container(9, b"")).unwrap_err();
    assert_eq!(err, CodecError::UnknownCompression);
}

#[test]
fn truncated_rpack_record_is_rejected() {
    let mut body = rpack_body(&[(0, 0, b"xy")]);
    body.truncate(body.len() - 1);
    let mut reader = RpackReader::from_reader(rpack_container(0, &body)).unwrap();
    let err = reader.read_chunk().unwrap_err();
    assert_eq!(err, CodecError::UnexpectedEof);
}

#[test]
fn rpack_header_writes_codec_byte_and_reserved_zeros() {
    let mut out = Vec::new();
    RpackHeader { compression_type: CompactCompression::Zstd }.write(&mut out);
    assert_eq!(out.len(), 32);
    assert_eq!(out[0], 1);
    assert!(out[1..].iter().all(|b| *b == 0));
    let h = RpackHeader::parse(&out).unwrap();
    assert_eq!(h.compression_type, CompactCompression::Zstd);
}
