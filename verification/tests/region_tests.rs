use rcompact::region::{ChunkInfo, RegionInfo, RegionReader};

fn region_header(locdata: [u8; 4], timestamp: [u8; 4]) -> Vec<u8> {
    let mut buf = Vec::new();
    for _ in 0..1024 {
        buf.extend_from_slice(&locdata);
    }
    for _ in 0..1024 {
        buf.extend_from_slice(&timestamp);
    }
    buf
}

#[test]
fn chunk_info_new() {
    let buf = region_header([0u8, 0, 16, 2], [0u8, 0, 1, 0]);

    let region_reader = RegionReader::from_reader(buf).unwrap();

    let info = region_reader.next_chunk_info().unwrap();

    assert_eq!(info.0.location(), 16 * 4096);
    assert_eq!(info.0.size(), 2 * 4096);
    assert_eq!(info.0.timestamp, 256);

    assert_eq!(info.1, 0);

    let info = ChunkInfo::new(info.0.location(), info.0.size(), info.0.timestamp);

    assert_eq!(info.location(), 16 * 4096);
    assert_eq!(info.size(), 2 * 4096);
    assert_eq!(info.timestamp, 256);
}

#[test]
fn chunk_info_serialized_bytes_round_trip() {
    // locdata bytes [0x00, 0x00, 0x10, 0x02] and timestamp bytes
    // [0x00, 0x00, 0x01, 0x00] denote location 65536, size 8192,
    // timestamp 256.
    let buf = region_header([0x00, 0x00, 0x10, 0x02], [0x00, 0x00, 0x01, 0x00]);
    let info = RegionInfo::read(&buf).unwrap();
    let table = info.chunk_infos();
    assert_eq!(table.len(), 1024);
    let (ci, pos) = table[0];
    assert_eq!(pos, 0);
    assert_eq!(ci.location(), 0x10 * 4096);
    assert_eq!(ci.location(), 65536);
    assert_eq!(ci.size(), 0x02 * 4096);
    assert_eq!(ci.size(), 8192);
    assert_eq!(ci.timestamp, 256);
}

#[test]
fn region_info_sorts_by_location() {
    // slot 0 at sector 20, slot 1 at sector 4: the table lists slot 1 first
    let mut buf = vec![0u8; 8192];
    buf[0..4].copy_from_slice(&[0, 0, 20, 1]);
    buf[4..8].copy_from_slice(&[0, 0, 4, 1]);
    let info = RegionInfo::read(&buf).unwrap();
    let table = info.chunk_infos();
    assert_eq!(table.len(), 2);
    assert_eq!(table[0].1, 1);
    assert_eq!(table[0].0.location(), 4 * 4096);
    assert_eq!(table[1].1, 0);
    assert_eq!(table[1].0.location(), 20 * 4096);
}

#[test]
fn region_info_short_header_is_rejected() {
    let buf = vec![0u8; 8191];
    let err = RegionInfo::read(&buf).unwrap_err();
    assert_eq!(err, rcompact::error::CodecError::UnexpectedEof);
}

#[test]
fn region_reader_reads_sector_padded_chunk() {
    let mut buf = vec![0u8; 8192 + 4096];
    buf[0..4].copy_from_slice(&[0, 0, 2, 1]);
    buf[8192] = 0xAB;
    buf[8192 + 4095] = 0xCD;
    let mut rr = RegionReader::from_reader(buf).unwrap();
    let (ci, chunk) = rr.read_next_chunk().unwrap().unwrap();
    assert_eq!(ci.location(), 8192);
    assert_eq!(ci.size(), 4096);
    assert_eq!(chunk.len(), 4096);
    assert_eq!(chunk[0], 0xAB);
    assert_eq!(chunk[4095], 0xCD);
    assert!(rr.read_next_chunk().unwrap().is_none());
}

#[test]
fn region_reader_rejects_chunk_past_end() {
    let mut buf = vec![0u8; 8192];
    buf[0..4].copy_from_slice(&[0, 0, 2, 1]);
    let mut rr = RegionReader::from_reader(buf).unwrap();
    let err = rr.read_next_chunk().unwrap_err();
    assert_eq!(err, rcompact::error::CodecError::MalformedRegion);
}
