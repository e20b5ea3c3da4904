//! The bin record header: a fixed 16-byte prefix carrying the chunk
//! position (little-endian), the timestamp (big-endian) and the
//! decompressed byte count (little-endian).

use vstd::prelude::*;
use crate::bytes::{be32_at, be32_bytes, le32_at, le32_bytes, le64_at, le64_bytes};

verus! {

/// The header in front of each record's decompressed payload.
#[derive(Clone, Copy, Debug, PartialEq, Eq, Structural)]
pub struct BinHeader {
    /// The chunk's position within its region, `0 ..= 1023`.
    pub pos: u32,
    /// The timestamp carried verbatim from the source region.
    pub timestamp: u32,
    /// The count of decompressed payload bytes that follow.
    pub length: u64,
}

/// The 16 bytes a record header serializes to.
pub open spec fn bin_header_bytes(pos: u32, timestamp: u32, length: u64) -> Seq<u8> {
    le32_bytes(pos) + be32_bytes(timestamp) + le64_bytes(length)
}

impl BinHeader {
    /// The 16 bytes this header serializes to.
    pub open spec fn spec_bytes(self) -> Seq<u8> {
        bin_header_bytes(self.pos, self.timestamp, self.length)
    }

    /// Reads the header whose 16 bytes start at `off`.
    pub fn parse(data: &Vec<u8>, off: usize) -> (r: BinHeader)
        requires
            off + 16 <= data.len(),
        ensures
            r.pos == le32_at(data@, off as int),
            r.timestamp == be32_at(data@, off as int + 4),
            r.length == le64_at(data@, off as int + 8),
    {
        let pos = crate::bytes::read_le32(data, off);
        let timestamp = crate::bytes::read_be32(data, off + 4);
        let length = crate::bytes::read_le64(data, off + 8);
        BinHeader { pos, timestamp, length }
    }

    /// Appends this header's 16 bytes.
    pub fn write(&self, out: &mut Vec<u8>)
        ensures
            final(out)@ == old(out)@ + self.spec_bytes(),
    {
        crate::bytes::push_le32(out, self.pos);
        crate::bytes::push_be32(out, self.timestamp);
        crate::bytes::push_le64(out, self.length);
        proof {
            assert(out@ =~= old(out)@ + self.spec_bytes());
        }
    }
}

/// Parsing the 16 serialized bytes of a header yields its fields back.
pub proof fn lemma_bin_header_round_trip(pos: u32, timestamp: u32, length: u64)
    ensures
        le32_at(bin_header_bytes(pos, timestamp, length), 0) == pos,
        be32_at(bin_header_bytes(pos, timestamp, length), 4) == timestamp,
        le64_at(bin_header_bytes(pos, timestamp, length), 8) == length,
{
    let b = bin_header_bytes(pos, timestamp, length);
    crate::bytes::lemma_le32_round_trip(pos);
    crate::bytes::lemma_be32_round_trip(timestamp);
    crate::bytes::lemma_le64_round_trip(length);
    assert forall|i: int| 0 <= i < 4 implies b[i] == le32_bytes(pos)[i] by {}
    assert forall|i: int| 0 <= i < 4 implies b[4 + i] == be32_bytes(timestamp)[i] by {}
    assert forall|i: int| 0 <= i < 8 implies b[8 + i] == le64_bytes(length)[i] by {}
    assert(le32_at(b, 0) == le32_at(le32_bytes(pos), 0));
    assert(be32_at(b, 4) == be32_at(be32_bytes(timestamp), 0));
    assert(le64_at(b, 8) == le64_at(le64_bytes(length), 0));
}

} // verus!
