//! The region container: the packed chunk descriptor, the 8192-byte
//! descriptor table, and the sequential reader over a region image.

use vstd::prelude::*;
use crate::bytes::{be32_at, be32_bytes};
use crate::error::CodecError;

verus! {

/// A chunk descriptor: `locdata` packs the sector offset (high 24 bits) and
/// the sector count (low 8 bits); `timestamp` is carried verbatim. A
/// descriptor whose `locdata` is zero never stands in a table (that pattern
/// denotes an absent chunk on disk).
#[derive(Clone, Copy, Debug, PartialEq, Eq, Structural)]
pub struct ChunkInfo {
    pub locdata: u32,
    pub timestamp: u32,
}

/// Packing a 24-bit sector offset and an 8-bit sector count unpacks to the
/// same values, and a nonzero sector count makes the packed word nonzero.
pub proof fn lemma_locdata_pack(ls: u32, ss: u32)
    requires
        ls <= 0xFFFFFF,
        ss <= 0xFF,
    ensures
        ((ls << 8) | ss) >> 8 == ls,
        ((ls << 8) | ss) & 0xFF == ss,
        ss >= 1 ==> ((ls << 8) | ss) != 0,
{
    assert(ls <= 0xFFFFFF && ss <= 0xFF ==> ((ls << 8) | ss) >> 8 == ls && ((ls << 8) | ss)
        & 0xFF == ss && (ss >= 1 ==> ((ls << 8) | ss) != 0)) by (bit_vector);
}

/// The two packed fields stay within 24 and 8 bits.
pub proof fn lemma_locdata_unpack_bounds(ld: u32)
    ensures
        (ld >> 8) <= 0xFFFFFF,
        (ld & 0xFF) <= 0xFF,
        ld != 0 ==> (ld >> 8) >= 1 || (ld & 0xFF) >= 1,
{
    assert((ld >> 8) <= 0xFFFFFF && (ld & 0xFF) <= 0xFF && (ld != 0 ==> (ld >> 8) >= 1 || (ld
        & 0xFF) >= 1)) by (bit_vector);
}

impl ChunkInfo {
    /// The first byte of the chunk's range: sector offset times 4096.
    pub open spec fn spec_location(self) -> int {
        (self.locdata >> 8) * 4096
    }

    /// The byte size of the chunk's range: sector count times 4096.
    pub open spec fn spec_size(self) -> int {
        (self.locdata & 0xFF) * 4096
    }

    /// The descriptor denotes a present chunk.
    pub open spec fn wf(self) -> bool {
        self.locdata != 0
    }

    /// Packs a byte location and a byte size into a descriptor.
    ///
    /// Both must be sector-multiples; the size must cover one sector and at
    /// most 255, and the location must fit the 24-bit sector offset.
    pub fn new(location: u64, size: u64, timestamp: u32) -> (r: ChunkInfo)
        requires
            location % 4096 == 0,
            size % 4096 == 0,
            4096 <= size <= 255 * 4096,
            location / 4096 <= 0xFFFFFF,
        ensures
            r.spec_location() == location,
            r.spec_size() == size,
            r.timestamp == timestamp,
            r.wf(),
            r.locdata == pack_locdata((location / 4096) as u32, (size / 4096) as u32),
    {
        let ls: u32 = (location / 4096) as u32;
        let ss: u32 = (size / 4096) as u32;
        proof {
            lemma_locdata_pack(ls, ss);
        }
        ChunkInfo { locdata: (ls << 8) | ss, timestamp }
    }

    /// The first byte of the chunk's range within the region image.
    pub fn location(&self) -> (r: u64)
        ensures
            r == self.spec_location(),
            r <= 0xFFFFFF * 4096,
    {
        proof {
            lemma_locdata_unpack_bounds(self.locdata);
        }
        ((self.locdata >> 8) as u64) * 4096
    }

    /// The byte size of the chunk's range, padding included.
    pub fn size(&self) -> (r: u64)
        ensures
            r == self.spec_size(),
            r <= 255 * 4096,
    {
        proof {
            lemma_locdata_unpack_bounds(self.locdata);
        }
        ((self.locdata & 0xFF) as u64) * 4096
    }
}

/// The packed word a 24-bit sector offset and an 8-bit sector count
/// combine to.
pub open spec fn pack_locdata(ls: u32, ss: u32) -> u32 {
    (ls << 8) | ss
}

/// The eight bytes a descriptor serializes to: big-endian `locdata`, then
/// big-endian `timestamp`.
pub open spec fn chunk_info_bytes(ci: ChunkInfo) -> Seq<u8> {
    be32_bytes(ci.locdata) + be32_bytes(ci.timestamp)
}

/// The descriptor read back from its eight serialized bytes.
pub open spec fn parse_chunk_info(s: Seq<u8>) -> ChunkInfo
    recommends
        s.len() == 8,
{
    ChunkInfo { locdata: be32_at(s, 0), timestamp: be32_at(s, 4) }
}

/// Parsing a serialized descriptor yields the descriptor back.
pub proof fn lemma_chunk_info_round_trip(ci: ChunkInfo)
    ensures
        parse_chunk_info(chunk_info_bytes(ci)) == ci,
{
    let b = chunk_info_bytes(ci);
    crate::bytes::lemma_be32_round_trip(ci.locdata);
    crate::bytes::lemma_be32_round_trip(ci.timestamp);
    assert(be32_at(b, 0) == be32_at(be32_bytes(ci.locdata), 0));
    assert(b[4] == be32_bytes(ci.timestamp)[0]);
    assert(b[5] == be32_bytes(ci.timestamp)[1]);
    assert(b[6] == be32_bytes(ci.timestamp)[2]);
    assert(b[7] == be32_bytes(ci.timestamp)[3]);
    assert(be32_at(b, 4) == be32_at(be32_bytes(ci.timestamp), 0));
}

/// The packed `locdata` word of table slot `p` of a region image.
pub open spec fn locdata_at(d: Seq<u8>, p: int) -> u32
    recommends
        0 <= p < 1024,
        d.len() >= 8192,
{
    be32_at(d, 4 * p)
}

/// The timestamp word of table slot `p` of a region image.
pub open spec fn timestamp_at(d: Seq<u8>, p: int) -> u32
    recommends
        0 <= p < 1024,
        d.len() >= 8192,
{
    be32_at(d, 4096 + 4 * p)
}

/// The descriptor-and-position pair table slot `p` carries.
pub open spec fn entry_at(d: Seq<u8>, p: int) -> (ChunkInfo, u16) {
    (ChunkInfo { locdata: locdata_at(d, p), timestamp: timestamp_at(d, p) }, p as u16)
}

/// The populated table entries among positions `0 .. p`, in position order.
pub open spec fn raw_entries(d: Seq<u8>, p: int) -> Seq<(ChunkInfo, u16)>
    decreases p,
{
    if p <= 0 {
        Seq::empty()
    } else if locdata_at(d, p - 1) != 0 {
        raw_entries(d, p - 1).push(entry_at(d, p - 1))
    } else {
        raw_entries(d, p - 1)
    }
}

/// The byte location an entry sorts by.
pub open spec fn entry_key(e: (ChunkInfo, u16)) -> int {
    e.0.spec_location()
}

/// Inserts `e` behind every entry whose location does not exceed its own
/// (a stable insertion from the rear).
pub open spec fn insert_by_loc(s: Seq<(ChunkInfo, u16)>, e: (ChunkInfo, u16)) -> Seq<
    (ChunkInfo, u16),
>
    decreases s.len(),
{
    if s.len() == 0 {
        seq![e]
    } else if entry_key(s.last()) <= entry_key(e) {
        s.push(e)
    } else {
        insert_by_loc(s.drop_last(), e).push(s.last())
    }
}

/// Stable insertion sort of a table by chunk location.
pub open spec fn sort_by_loc(s: Seq<(ChunkInfo, u16)>) -> Seq<(ChunkInfo, u16)>
    decreases s.len(),
{
    if s.len() == 0 {
        Seq::empty()
    } else {
        insert_by_loc(sort_by_loc(s.drop_last()), s.last())
    }
}

/// Every entry sits at a location no greater than those behind it.
pub open spec fn sorted_by_loc(s: Seq<(ChunkInfo, u16)>) -> bool {
    forall|i: int, j: int|
        0 <= i < j < s.len() ==> entry_key(#[trigger] s[i]) <= entry_key(#[trigger] s[j])
}

/// The populated entries of a region image's descriptor table, sorted
/// ascending by location (ties keep position order).
pub open spec fn region_table(d: Seq<u8>) -> Seq<(ChunkInfo, u16)> {
    sort_by_loc(raw_entries(d, 1024))
}

/// Where `j` splits `s` into a front whose keys do not exceed `e`'s and a
/// rear whose keys do, inserting `e` puts it exactly between the two.
pub proof fn lemma_insert_split(s: Seq<(ChunkInfo, u16)>, e: (ChunkInfo, u16), j: int)
    requires
        0 <= j <= s.len(),
        forall|k: int| j <= k < s.len() ==> entry_key(#[trigger] s[k]) > entry_key(e),
        j > 0 ==> entry_key(s[j - 1]) <= entry_key(e),
    ensures
        insert_by_loc(s, e) == s.take(j) + seq![e] + s.skip(j),
    decreases s.len(),
{
    if j == s.len() {
        if s.len() == 0 {
            assert(insert_by_loc(s, e) =~= s.take(j) + seq![e] + s.skip(j));
        } else {
            assert(entry_key(s.last()) <= entry_key(e));
            assert(s.push(e) =~= s.take(j) + seq![e] + s.skip(j));
        }
    } else {
        assert(entry_key(s[s.len() - 1]) > entry_key(e));
        let dl = s.drop_last();
        lemma_insert_split(dl, e, j);
        assert(dl.take(j) =~= s.take(j));
        assert((dl.take(j) + seq![e] + dl.skip(j)).push(s.last()) =~= s.take(j) + seq![e]
            + s.skip(j));
    }
}

/// The parsed, location-sorted descriptor table of a region image.
#[derive(Debug, Clone)]
pub struct RegionInfo {
    pub chunks: Vec<(ChunkInfo, u16)>,
}

impl View for RegionInfo {
    type V = Seq<(ChunkInfo, u16)>;

    open spec fn view(&self) -> Seq<(ChunkInfo, u16)> {
        self.chunks@
    }
}

impl RegionInfo {
    /// Reads the 8192-byte descriptor table at the head of a region image:
    /// every slot with a nonzero `locdata` becomes an entry, and the
    /// entries are sorted ascending by location.
    pub fn read(data: &Vec<u8>) -> (r: Result<RegionInfo, CodecError>)
        ensures
            match r {
                Ok(info) => data@.len() >= 8192 && info@ == region_table(data@),
                Err(e) => e == CodecError::UnexpectedEof && data@.len() < 8192,
            },
    {
        if data.len() < 8192 {
            return Err(CodecError::UnexpectedEof);
        }
        let mut raw: Vec<(ChunkInfo, u16)> = Vec::new();
        let mut p: usize = 0;
        while p < 1024
            invariant
                p <= 1024,
                data@.len() >= 8192,
                raw@ == raw_entries(data@, p as int),
            decreases 1024 - p,
        {
            let ld = crate::bytes::read_be32(data, 4 * p);
            if ld != 0 {
                let ts = crate::bytes::read_be32(data, 4096 + 4 * p);
                raw.push((ChunkInfo { locdata: ld, timestamp: ts }, p as u16));
            }
            p = p + 1;
            proof {
                assert(raw@ == raw_entries(data@, p as int));
            }
        }
        proof {
            assert(raw@ == raw_entries(data@, 1024));
        }
        let mut table: Vec<(ChunkInfo, u16)> = Vec::new();
        let mut i: usize = 0;
        while i < raw.len()
            invariant
                i <= raw@.len(),
                raw@ == raw_entries(data@, 1024),
                table@ == sort_by_loc(raw@.take(i as int)),
            decreases raw@.len() - i,
        {
            let e = raw[i];
            let e_loc = e.0.location();
            let ghost t0 = table@;
            let mut j: usize = table.len();
            while j > 0 && table[j - 1].0.location() > e_loc
                invariant
                    j <= table@.len(),
                    table@ == t0,
                    e_loc == entry_key(e),
                    forall|k: int|
                        j <= k < table@.len() ==> entry_key(#[trigger] table@[k]) > entry_key(
                            e,
                        ),
                decreases j,
            {
                j = j - 1;
            }
            table.insert(j, e);
            proof {
                lemma_insert_split(t0, e, j as int);
                assert(t0.insert(j as int, e) =~= t0.take(j as int) + seq![e] + t0.skip(
                    j as int,
                ));
                assert(raw@.take(i + 1).drop_last() =~= raw@.take(i as int));
                assert(raw@.take(i + 1).last() == raw@[i as int]);
                assert(table@ == sort_by_loc(raw@.take(i + 1)));
            }
            i = i + 1;
        }
        proof {
            assert(raw@.take(raw@.len() as int) =~= raw@);
        }
        Ok(RegionInfo { chunks: table })
    }

    /// The sorted descriptor table.
    pub fn chunk_infos(&self) -> (r: &Vec<(ChunkInfo, u16)>)
        ensures
            r@ == self@,
    {
        &self.chunks
    }
}

/// A sequential scan over a region image: the sorted table, the byte
/// position the scan has reached, and the index of the next entry to read.
#[derive(Debug, Clone)]
pub struct RegionReader {
    pub data: Vec<u8>,
    pub info: RegionInfo,
    pub pos: u64,
    pub next_chunk: usize,
}

/// The view of one step's outcome, with the chunk bytes as a sequence.
pub open spec fn step_view(r: Result<Option<(ChunkInfo, Vec<u8>)>, CodecError>) -> Result<
    Option<(ChunkInfo, Seq<u8>)>,
    CodecError,
> {
    match r {
        Ok(None) => Ok(None),
        Ok(Some((ci, v))) => Ok(Some((ci, v@))),
        Err(e) => Err(e),
    }
}

impl RegionReader {
    /// The reader's table matches its bytes and its cursor stays in range.
    pub open spec fn wf(self) -> bool {
        &&& self.data@.len() >= 8192
        &&& self.info@ == region_table(self.data@)
        &&& self.next_chunk <= self.info@.len()
    }

    /// What reading the next chunk yields: `None` past the last entry, an
    /// error where the entry's range runs backwards or past the image's
    /// end, and otherwise the entry with its sector-padded byte range.
    pub open spec fn step_spec(self) -> Result<Option<(ChunkInfo, Seq<u8>)>, CodecError> {
        if self.next_chunk == self.info@.len() {
            Ok(None)
        } else {
            let ci = self.info@[self.next_chunk as int].0;
            if ci.spec_location() < self.pos {
                Err(CodecError::MalformedRegion)
            } else if ci.spec_location() + ci.spec_size() > self.data@.len() {
                Err(CodecError::MalformedRegion)
            } else {
                Ok(
                    Some(
                        (
                            ci,
                            self.data@.subrange(
                                ci.spec_location(),
                                ci.spec_location() + ci.spec_size(),
                            ),
                        ),
                    ),
                )
            }
        }
    }

    /// Opens a region image: parses the descriptor table and places the
    /// scan just past it.
    pub fn from_reader(data: Vec<u8>) -> (r: Result<RegionReader, CodecError>)
        ensures
            match r {
                Ok(rr) => {
                    &&& data@.len() >= 8192
                    &&& rr.data@ == data@
                    &&& rr.info@ == region_table(data@)
                    &&& rr.pos == 8192
                    &&& rr.next_chunk == 0
                    &&& rr.wf()
                },
                Err(e) => e == CodecError::UnexpectedEof && data@.len() < 8192,
            },
    {
        let info = match RegionInfo::read(&data) {
            Ok(info) => info,
            Err(e) => {
                return Err(e);
            },
        };
        Ok(RegionReader { data, info, pos: 8192, next_chunk: 0 })
    }

    /// The entry the next read will return, without consuming it.
    pub fn next_chunk_info(&self) -> (r: Option<(ChunkInfo, u16)>)
        requires
            self.wf(),
        ensures
            r == (if self.next_chunk < self.info@.len() {
                Some(self.info@[self.next_chunk as int])
            } else {
                None::<(ChunkInfo, u16)>
            }),
    {
        if self.next_chunk < self.info.chunks.len() {
            Some(self.info.chunks[self.next_chunk])
        } else {
            None
        }
    }

    /// Reads the next chunk's sector-padded byte range and advances the
    /// scan past it. On an error the reader is left as it was.
    pub fn read_next_chunk(&mut self) -> (r: Result<Option<(ChunkInfo, Vec<u8>)>, CodecError>)
        requires
            old(self).wf(),
        ensures
            final(self).wf(),
            final(self).data == old(self).data,
            final(self).info == old(self).info,
            step_view(r) == old(self).step_spec(),
            match old(self).step_spec() {
                Ok(Some((ci, _))) => final(self).pos == ci.spec_location() + ci.spec_size()
                    && final(self).next_chunk == old(self).next_chunk + 1,
                _ => *final(self) == *old(self),
            },
    {
        if self.next_chunk == self.info.chunks.len() {
            return Ok(None);
        }
        let (ci, _p) = self.info.chunks[self.next_chunk];
        let location = ci.location();
        if location < self.pos {
            return Err(CodecError::MalformedRegion);
        }
        let size = ci.size();
        let dlen = self.data.len();
        if location > dlen as u64 || size > dlen as u64 - location {
            return Err(CodecError::MalformedRegion);
        }
        let start = location as usize;
        let end = start + size as usize;
        let chunk = crate::bytes::copy_range(&self.data, start, end);
        self.pos = location + size;
        self.next_chunk = self.next_chunk + 1;
        Ok(Some((ci, chunk)))
    }
}

} // verus!
