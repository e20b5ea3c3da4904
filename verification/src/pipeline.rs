//! The two pipelines: `compact` turns a region image into a bin stream of
//! decompressed records, `decompact` turns a bin stream back into a region
//! image.

use vstd::prelude::*;
use vstd::pervasive::VecAdditionalExecFns;
use crate::bin::{bin_header_bytes, BinHeader};
use crate::bytes::{be32_at, be32_bytes, le32_at, le64_at, pad_of, zeros};
use crate::chunk::{sector_decompress, ChunkData};
use crate::codec::{zlib_compress, zlib_compress_of, zlib_decompress_of};
use crate::error::{res_bytes, CodecError};
use crate::region::{pack_locdata, region_table, ChunkInfo, RegionReader};

verus! {

/// `r` with `prefix` prepended to its payload when it succeeded.
pub open spec fn with_prefix(prefix: Seq<u8>, r: Result<Seq<u8>, CodecError>) -> Result<
    Seq<u8>,
    CodecError,
> {
    match r {
        Ok(rest) => Ok(prefix + rest),
        Err(e) => Err(e),
    }
}

/// Prepending twice is prepending the concatenation.
pub proof fn lemma_with_prefix_assoc(a: Seq<u8>, b: Seq<u8>, r: Result<Seq<u8>, CodecError>)
    ensures
        with_prefix(a, with_prefix(b, r)) == with_prefix(a + b, r),
{
    if r is Ok {
        assert(a + (b + r->Ok_0) =~= (a + b) + r->Ok_0);
    }
}

/// The bin stream the table entries from `i` on compact to, scanning the
/// region image `d` from byte position `pos`.
///
/// Each entry must lie at or past the scan position and within the image;
/// its sector-padded range is decompressed and emitted behind a record
/// header carrying the entry's position, its timestamp and the
/// decompressed byte count.
pub open spec fn compact_from(
    d: Seq<u8>,
    t: Seq<(ChunkInfo, u16)>,
    i: int,
    pos: int,
) -> Result<Seq<u8>, CodecError>
    decreases t.len() - i,
{
    if i < 0 || i >= t.len() {
        Ok(Seq::empty())
    } else {
        let ci = t[i].0;
        let p = t[i].1;
        if ci.spec_location() < pos {
            Err(CodecError::MalformedRegion)
        } else if ci.spec_location() + ci.spec_size() > d.len() {
            Err(CodecError::MalformedRegion)
        } else {
            let sector = d.subrange(ci.spec_location(), ci.spec_location() + ci.spec_size());
            match sector_decompress(sector) {
                Err(e) => Err(e),
                Ok(payload) => with_prefix(
                    bin_header_bytes(p as u32, ci.timestamp, payload.len() as u64) + payload,
                    compact_from(d, t, i + 1, ci.spec_location() + ci.spec_size()),
                ),
            }
        }
    }
}

/// The bin stream a whole region image compacts to: its sorted table,
/// scanned from the first byte after the descriptor table. An image too
/// short to hold the table is rejected.
pub open spec fn compact_spec(d: Seq<u8>) -> Result<Seq<u8>, CodecError> {
    if d.len() < 8192 {
        Err(CodecError::UnexpectedEof)
    } else {
        compact_from(d, region_table(d), 0, 8192)
    }
}

/// Compacts a region image into a bin stream: every populated chunk, in
/// ascending location order, is decompressed and emitted as a record of
/// its position, timestamp and decompressed bytes.
pub fn compact(data: Vec<u8>) -> (r: Result<Vec<u8>, CodecError>)
    ensures
        res_bytes(r) == compact_spec(data@),
{
    let ghost d = data@;
    let mut rr = match RegionReader::from_reader(data) {
        Ok(rr) => rr,
        Err(e) => {
            return Err(e);
        },
    };
    let ghost t = region_table(d);
    let mut out: Vec<u8> = Vec::new();
    proof {
        if compact_from(d, t, 0, 8192) is Ok {
            assert(out@ + compact_from(d, t, 0, 8192)->Ok_0 =~= compact_from(
                d,
                t,
                0,
                8192,
            )->Ok_0);
        }
    }
    while rr.next_chunk < rr.info.chunks.len()
        invariant
            d == data@,
            rr.wf(),
            rr.data@ == d,
            rr.info@ == t,
            t == region_table(d),
            d.len() >= 8192,
            compact_from(d, t, 0, 8192) == with_prefix(
                out@,
                compact_from(d, t, rr.next_chunk as int, rr.pos as int),
            ),
        decreases t.len() - rr.next_chunk,
    {
        let (info, p) = match rr.next_chunk_info() {
            Some(x) => x,
            None => {
                proof {
                    assert(false);
                }
                return Err(CodecError::MalformedRegion);
            },
        };
        let ghost i = rr.next_chunk as int;
        let ghost pos0 = rr.pos as int;
        let ghost rr0 = rr;
        let step = rr.read_next_chunk();
        let (ci, sector) = match step {
            Err(e) => {
                proof {
                    assert(compact_from(d, t, i, pos0) == Err::<Seq<u8>, CodecError>(e));
                }
                return Err(e);
            },
            Ok(None) => {
                proof {
                    assert(false);
                }
                return Err(CodecError::MalformedRegion);
            },
            Ok(Some(x)) => x,
        };
        let ghost sec = sector@;
        proof {
            assert(ci == t[i].0);
            assert(sec == d.subrange(ci.spec_location(), ci.spec_location() + ci.spec_size()));
        }
        let cd = match ChunkData::parse(&sector) {
            Ok(cd) => cd,
            Err(e) => {
                proof {
                    assert(sector_decompress(sec) == Err::<Seq<u8>, CodecError>(e));
                    assert(compact_from(d, t, i, pos0) == Err::<Seq<u8>, CodecError>(e));
                }
                return Err(e);
            },
        };
        proof {
            crate::chunk::lemma_parse_decompress(sec, cd);
        }
        let payload = match cd.decompress() {
            Ok(v) => v,
            Err(e) => {
                proof {
                    assert(compact_from(d, t, i, pos0) == Err::<Seq<u8>, CodecError>(e));
                }
                return Err(e);
            },
        };
        let ghost out0 = out@;
        let h = BinHeader { pos: p as u32, timestamp: info.timestamp, length: payload.len() as u64 };
        h.write(&mut out);
        crate::bytes::push_bytes(&mut out, &payload);
        proof {
            let rec = bin_header_bytes(p as u32, ci.timestamp, payload@.len() as u64) + payload@;
            assert(info == ci);
            assert(h.spec_bytes() == bin_header_bytes(p as u32, ci.timestamp, payload@.len() as u64));
            assert(out@ =~= out0 + rec);
            assert(sector_decompress(sec) == Ok::<Seq<u8>, CodecError>(payload@));
            assert(compact_from(d, t, i, pos0) == with_prefix(
                rec,
                compact_from(d, t, i + 1, rr.pos as int),
            ));
            lemma_with_prefix_assoc(out0, rec, compact_from(d, t, i + 1, rr.pos as int));
        }
    }
    proof {
        assert(rr.next_chunk == t.len());
        assert(compact_from(d, t, rr.next_chunk as int, rr.pos as int) == Ok::<
            Seq<u8>,
            CodecError,
        >(Seq::empty()));
        assert(out@ + Seq::<u8>::empty() =~= out@);
    }
    Ok(out)
}


/// The sector-padded chunk byte range a record payload recompresses to:
/// a big-endian length prefix counting the compression-type byte and the
/// zlib bytes, the zlib type byte, the zlib stream, and zero padding up to
/// the next sector boundary.
pub open spec fn chunk_bytes_of(payload: Seq<u8>) -> Seq<u8> {
    let comp = zlib_compress_of(payload);
    be32_bytes((comp.len() + 1) as u32) + seq![2u8] + comp + zeros(pad_of(comp.len() + 5 as int))
}

/// The sector-padded byte size of a record payload's recompressed chunk.
pub open spec fn chunk_total_of(payload: Seq<u8>) -> int {
    zlib_compress_of(payload).len() + 5 + pad_of(zlib_compress_of(payload).len() + 5 as int)
}

/// Padding a positive byte count to its sector boundary stays within one
/// sector, lands on a multiple, and crosses a multiple-of-4096 limit
/// exactly when the unpadded count does.
pub proof fn lemma_total_within(c: int)
    requires
        c >= 1,
    ensures
        (c + pad_of(c)) % 4096 == 0,
        c <= c + pad_of(c) < c + 4096,
        (c + pad_of(c) > 255 * 4096) <==> (c > 255 * 4096),
{
    let m = c % 4096;
    if m == 0 {
    } else {
        assert(c + (4096 - m) == 4096 * (c / 4096) + 4096);
        assert((4096 * (c / 4096) + 4096) % 4096 == 0) by (nonlinear_arith);
    }
    let t = c + pad_of(c);
    if c <= 255 * 4096 {
        assert(t < 256 * 4096);
        assert(t % 4096 == 0);
        assert(t <= 255 * 4096) by (nonlinear_arith)
            requires
                t % 4096 == 0,
                t < 256 * 4096,
        ;
    }
}

/// The body bytes and descriptor table that the bin records of `d` from
/// byte `off` on decompact to, with the next chunk placed at byte
/// `location` of the region image and `used` the record positions already
/// taken.
///
/// A cut-short header or payload is rejected; so is a position of 1024 or
/// more, or one already taken; and a chunk too large for the 8-bit sector
/// count, or a location past the 24-bit sector offset, violates the
/// descriptor's contract.
pub open spec fn decompact_from(d: Seq<u8>, off: int, location: int, used: Set<int>) -> Result<
    (Seq<u8>, Map<int, ChunkInfo>),
    CodecError,
>
    decreases d.len() - off,
{
    if off >= d.len() {
        Ok((Seq::empty(), Map::empty()))
    } else if off + 16 > d.len() {
        Err(CodecError::UnexpectedEof)
    } else {
        let pos = le32_at(d, off);
        let ts = be32_at(d, off + 4);
        let len = le64_at(d, off + 8);
        if off + 16 + len > d.len() {
            Err(CodecError::UnexpectedEof)
        } else if pos >= 1024 {
            Err(CodecError::MalformedBin)
        } else if used.contains(pos as int) {
            Err(CodecError::MalformedBin)
        } else {
            let payload = d.subrange(off + 16, off + 16 + len);
            let total = chunk_total_of(payload);
            if total > 255 * 4096 {
                Err(CodecError::ContractViolation)
            } else if location / 4096 > 0xFFFFFF {
                Err(CodecError::ContractViolation)
            } else {
                let ci = ChunkInfo {
                    locdata: pack_locdata((location / 4096) as u32, (total / 4096) as u32),
                    timestamp: ts,
                };
                match decompact_from(d, off + 16 + len, location + total, used.insert(pos as int)) {
                    Err(e) => Err(e),
                    Ok(rest) => Ok(
                        (chunk_bytes_of(payload) + rest.0, rest.1.insert(pos as int, ci)),
                    ),
                }
            }
        }
    }
}

/// Every position a successful run of [`decompact_from`] assigns lies
/// below 1024 and outside the positions already taken.
pub proof fn lemma_decompact_from_dom(d: Seq<u8>, off: int, location: int, used: Set<int>)
    ensures
        match decompact_from(d, off, location, used) {
            Ok(r) => forall|k: int|
                #[trigger] r.1.contains_key(k) ==> 0 <= k < 1024 && !used.contains(k),
            Err(_) => true,
        },
    decreases d.len() - off,
{
    if off >= d.len() {
    } else if off + 16 > d.len() {
    } else {
        let pos = le32_at(d, off);
        let len = le64_at(d, off + 8);
        if off + 16 + len > d.len() {
        } else if pos >= 1024 {
        } else if used.contains(pos as int) {
        } else {
            let payload = d.subrange(off + 16, off + 16 + len);
            let total = chunk_total_of(payload);
            if total > 255 * 4096 {
            } else if location / 4096 > 0xFFFFFF {
            } else {
                lemma_decompact_from_dom(
                    d,
                    off + 16 + len,
                    location + total,
                    used.insert(pos as int),
                );
            }
        }
    }
}

/// The 4096 bytes of packed `locdata` words for positions `0 .. p`: the
/// table's word where the position holds a chunk, zero where it does not.
pub open spec fn locdata_row(t: Map<int, ChunkInfo>, p: int) -> Seq<u8>
    decreases p,
{
    if p <= 0 {
        Seq::empty()
    } else {
        locdata_row(t, p - 1) + be32_bytes(
            if t.contains_key(p - 1) {
                t[p - 1].locdata
            } else {
                0u32
            },
        )
    }
}

/// The 4096 bytes of timestamp words for positions `0 .. p`.
pub open spec fn timestamp_row(t: Map<int, ChunkInfo>, p: int) -> Seq<u8>
    decreases p,
{
    if p <= 0 {
        Seq::empty()
    } else {
        timestamp_row(t, p - 1) + be32_bytes(
            if t.contains_key(p - 1) {
                t[p - 1].timestamp
            } else {
                0u32
            },
        )
    }
}

/// The 8192-byte descriptor table a position-to-descriptor map serializes
/// to: 1024 `locdata` words, then 1024 timestamp words.
pub open spec fn region_header_bytes(t: Map<int, ChunkInfo>) -> Seq<u8> {
    locdata_row(t, 1024) + timestamp_row(t, 1024)
}

/// The region image a whole bin stream decompacts to: the serialized
/// descriptor table, then the recompressed chunk bodies in record order.
pub open spec fn decompact_spec(d: Seq<u8>) -> Result<Seq<u8>, CodecError> {
    match decompact_from(d, 0, 8192, Set::empty()) {
        Err(e) => Err(e),
        Ok(r) => Ok(region_header_bytes(r.1) + r.0),
    }
}

/// The zlib codec inverts its encoder on every record payload the stream
/// `d` carries from byte `off` on. Every run of [`decompact`] establishes
/// this of the stream it consumed.
pub open spec fn zlib_inverts_on_records(d: Seq<u8>, off: int) -> bool
    decreases d.len() - off,
{
    if off < 0 || off + 16 > d.len() {
        true
    } else {
        let len = le64_at(d, off + 8);
        if off + 16 + len > d.len() {
            true
        } else {
            zlib_decompress_of(zlib_compress_of(d.subrange(off + 16, off + 16 + len))) == Some(
                d.subrange(off + 16, off + 16 + len),
            ) && zlib_inverts_on_records(d, off + 16 + len)
        }
    }
}

/// The position-to-descriptor map a slot vector holds.
pub open spec fn table_map(tv: Seq<Option<ChunkInfo>>) -> Map<int, ChunkInfo> {
    Map::new(|p: int| 0 <= p < tv.len() && tv[p] is Some, |p: int| tv[p]->Some_0)
}


/// Decompacts a bin stream into a region image: each record's payload is
/// recompressed with zlib at level 3 and placed at the next sector
/// boundary behind a descriptor at the record's position; the serialized
/// descriptor table stands in front of the bodies.
pub fn decompact(data: &Vec<u8>) -> (r: Result<Vec<u8>, CodecError>)
    ensures
        res_bytes(r) == decompact_spec(data@),
        r is Ok ==> zlib_inverts_on_records(data@, 0),
{
    let ghost d = data@;
    let dlen = data.len();
    let mut table: Vec<Option<ChunkInfo>> = Vec::new();
    let mut q: usize = 0;
    while q < 1024
        invariant
            q <= 1024,
            table@.len() == q,
            forall|k: int| 0 <= k < q ==> table@[k] is None,
        decreases 1024 - q,
    {
        table.push(None);
        q = q + 1;
    }
    let mut body: Vec<u8> = Vec::new();
    let mut off: usize = 0;
    let mut location: u64 = 8192;
    proof {
        assert(table_map(table@) =~= Map::<int, ChunkInfo>::empty());
        assert(table_map(table@).dom() =~= Set::<int>::empty());
        let r0 = decompact_from(d, 0, 8192, Set::empty());
        if r0 is Ok {
            assert(body@ + r0->Ok_0.0 =~= r0->Ok_0.0);
            assert(table_map(table@).union_prefer_right(r0->Ok_0.1) =~= r0->Ok_0.1);
        }
    }
    while off < dlen
        invariant
            d == data@,
            dlen == d.len(),
            off <= dlen,
            location % 4096 == 0,
            8192 <= location <= 4096 * (0xFFFFFF + 255),
            table@.len() == 1024,
            zlib_inverts_on_records(d, off as int) ==> zlib_inverts_on_records(d, 0),
            ({
                let rr = decompact_from(d, off as int, location as int, table_map(table@).dom());
                match rr {
                    Ok(rest) => decompact_from(d, 0, 8192, Set::empty()) == Ok::<
                        (Seq<u8>, Map<int, ChunkInfo>),
                        CodecError,
                    >((body@ + rest.0, table_map(table@).union_prefer_right(rest.1))),
                    Err(e) => decompact_from(d, 0, 8192, Set::empty()) == Err::<
                        (Seq<u8>, Map<int, ChunkInfo>),
                        CodecError,
                    >(e),
                }
            }),
        decreases dlen - off,
    {
        let ghost used0 = table_map(table@).dom();
        let ghost off0 = off as int;
        let ghost loc0 = location as int;
        if dlen - off < 16 {
            return Err(CodecError::UnexpectedEof);
        }
        let h = BinHeader::parse(data, off);
        if h.length > (dlen - off - 16) as u64 {
            return Err(CodecError::UnexpectedEof);
        }
        if h.pos >= 1024 {
            return Err(CodecError::MalformedBin);
        }
        let posi = h.pos as usize;
        let slot = table[posi];
        let dup = match slot {
            Some(_) => true,
            None => false,
        };
        proof {
            assert(used0.contains(h.pos as int) <==> table@[h.pos as int] is Some);
        }
        if dup {
            return Err(CodecError::MalformedBin);
        }
        proof {
            assert(h.length <= usize::MAX as u64);
        }
        let len_us = h.length as usize;
        let payload = crate::bytes::copy_range(data, off + 16, off + 16 + len_us);
        let comp = zlib_compress(&payload);
        let ghost len = le64_at(d, off0 + 8);
        proof {
            assert(payload@ == d.subrange(off0 + 16, off0 + 16 + len));
            lemma_total_within(comp@.len() + 5 as int);
            assert(chunk_total_of(payload@) == comp@.len() + 5 + pad_of(comp@.len() + 5 as int));
        }
        if comp.len() > 255 * 4096 - 5 {
            proof {
                assert(chunk_total_of(payload@) > 255 * 4096);
            }
            return Err(CodecError::ContractViolation);
        }
        let ds: u64 = comp.len() as u64 + 5;
        let pad = crate::bytes::pad_len(ds);
        let total = ds + pad;
        proof {
            assert(total == chunk_total_of(payload@));
            assert(total <= 255 * 4096);
            assert(total >= 4096);
        }
        if location / 4096 > 0xFFFFFF {
            proof {
                assert(loc0 / 4096 > 0xFFFFFF);
            }
            return Err(CodecError::ContractViolation);
        }
        let ghost body0 = body@;
        crate::bytes::push_be32(&mut body, (ds - 4) as u32);
        body.push(2u8);
        crate::bytes::push_bytes(&mut body, &comp);
        crate::bytes::push_zeros(&mut body, pad as usize);
        proof {
            assert((ds - 4) as u32 == (comp@.len() + 1) as u32);
            assert(body@ =~= body0 + chunk_bytes_of(payload@));
        }
        let ci = ChunkInfo::new(location, total, h.timestamp);
        let ghost tv0 = table@;
        table.set(posi, Some(ci));
        off = off + 16 + len_us;
        location = location + total;
        proof {
            let pos = le32_at(d, off0);
            let ts = be32_at(d, off0 + 4);
            let payload_s = d.subrange(off0 + 16, off0 + 16 + len);
            let total_s = chunk_total_of(payload_s);
            assert(h.pos == pos && h.timestamp == ts && h.length == len);
            assert(total == total_s);
            let ci_s = ChunkInfo {
                locdata: pack_locdata((loc0 / 4096) as u32, (total_s / 4096) as u32),
                timestamp: ts,
            };
            assert(ci == ci_s);
            assert(table@ == tv0.update(pos as int, Some(ci)));
            assert(table_map(table@) =~= table_map(tv0).insert(pos as int, ci));
            assert(table_map(table@).dom() =~= used0.insert(pos as int));
            let rr = decompact_from(d, off0 + 16 + len, loc0 + total_s, used0.insert(pos as int));
            lemma_decompact_from_dom(d, off0 + 16 + len, loc0 + total_s, used0.insert(pos as int));
            if rr is Ok {
                let rest = rr->Ok_0;
                assert(decompact_from(d, off0, loc0, used0) == Ok::<
                    (Seq<u8>, Map<int, ChunkInfo>),
                    CodecError,
                >((chunk_bytes_of(payload_s) + rest.0, rest.1.insert(pos as int, ci_s))));
                assert(body0 + (chunk_bytes_of(payload_s) + rest.0) =~= body@ + rest.0);
                assert(!rest.1.contains_key(pos as int));
                assert(table_map(tv0).union_prefer_right(rest.1.insert(pos as int, ci_s))
                    =~= table_map(table@).union_prefer_right(rest.1));
            } else {
                assert(decompact_from(d, off0, loc0, used0) == Err::<
                    (Seq<u8>, Map<int, ChunkInfo>),
                    CodecError,
                >(rr->Err_0));
            }
            assert((loc0 + total_s) % 4096 == 0);
            assert(loc0 <= 0xFFFFFF * 4096);
            assert(zlib_inverts_on_records(d, off0) == zlib_inverts_on_records(d, off as int));
        }
    }
    let ghost tm = table_map(table@);
    proof {
        assert(decompact_from(d, off as int, location as int, tm.dom()) == Ok::<
            (Seq<u8>, Map<int, ChunkInfo>),
            CodecError,
        >((Seq::empty(), Map::empty())));
        assert(body@ + Seq::<u8>::empty() =~= body@);
        assert(tm.union_prefer_right(Map::empty()) =~= tm);
        assert(decompact_from(d, 0, 8192, Set::empty()) == Ok::<
            (Seq<u8>, Map<int, ChunkInfo>),
            CodecError,
        >((body@, tm)));
    }
    let mut out: Vec<u8> = Vec::new();
    let mut p2: usize = 0;
    while p2 < 1024
        invariant
            d == data@,
            p2 <= 1024,
            table@.len() == 1024,
            tm == table_map(table@),
            out@ == locdata_row(tm, p2 as int),
            decompact_from(d, 0, 8192, Set::empty()) == Ok::<
                (Seq<u8>, Map<int, ChunkInfo>),
                CodecError,
            >((body@, tm)),
        decreases 1024 - p2,
    {
        let slot = table[p2];
        match slot {
            Some(ci) => crate::bytes::push_be32(&mut out, ci.locdata),
            None => crate::bytes::push_be32(&mut out, 0u32),
        }
        p2 = p2 + 1;
        proof {
            assert(out@ == locdata_row(tm, p2 as int));
        }
    }
    let mut p3: usize = 0;
    proof {
        assert(out@ =~= locdata_row(tm, 1024) + timestamp_row(tm, 0));
    }
    while p3 < 1024
        invariant
            d == data@,
            p3 <= 1024,
            table@.len() == 1024,
            tm == table_map(table@),
            out@ == locdata_row(tm, 1024) + timestamp_row(tm, p3 as int),
            decompact_from(d, 0, 8192, Set::empty()) == Ok::<
                (Seq<u8>, Map<int, ChunkInfo>),
                CodecError,
            >((body@, tm)),
        decreases 1024 - p3,
    {
        let slot = table[p3];
        match slot {
            Some(ci) => crate::bytes::push_be32(&mut out, ci.timestamp),
            None => crate::bytes::push_be32(&mut out, 0u32),
        }
        p3 = p3 + 1;
        proof {
            assert(out@ =~= locdata_row(tm, 1024) + timestamp_row(tm, p3 as int));
        }
    }
    crate::bytes::push_bytes(&mut out, &body);
    proof {
        assert(out@ =~= region_header_bytes(tm) + body@);
    }
    Ok(out)
}


/// The recompressed chunk range is exactly its padded size long.
pub proof fn lemma_chunk_bytes_len(payload: Seq<u8>)
    ensures
        chunk_bytes_of(payload).len() == chunk_total_of(payload),
{
    let c = zlib_compress_of(payload).len() + 5;
    lemma_total_within(c as int);
}

/// The serialized descriptor rows for positions `0 .. p` hold four bytes
/// per position.
pub proof fn lemma_row_lens(t: Map<int, ChunkInfo>, p: int)
    requires
        p >= 0,
    ensures
        locdata_row(t, p).len() == 4 * p,
        timestamp_row(t, p).len() == 4 * p,
    decreases p,
{
    if p > 0 {
        lemma_row_lens(t, p - 1);
    }
}

/// Every descriptor a successful decompact run assigns denotes a present,
/// sector-aligned chunk placed at or past `location` and within the
/// emitted body; the length declared inside each chunk fits its size less
/// the four-byte prefix; and no two chunks overlap.
pub proof fn lemma_decompact_from_chunks(d: Seq<u8>, off: int, location: int, used: Set<int>)
    requires
        location % 4096 == 0,
        location >= 0,
    ensures
        match decompact_from(d, off, location, used) {
            Ok(r) => {
                &&& forall|k: int| #[trigger] r.1.contains_key(k) ==> {
                    let ci = r.1[k];
                    &&& ci.wf()
                    &&& ci.spec_location() % 4096 == 0
                    &&& ci.spec_size() % 4096 == 0
                    &&& 4096 <= ci.spec_size() <= 255 * 4096
                    &&& location <= ci.spec_location()
                    &&& ci.spec_location() + ci.spec_size() <= location + r.0.len()
                    &&& be32_at(r.0, ci.spec_location() - location) + 4 <= ci.spec_size()
                }
                &&& forall|k1: int, k2: int|
                    #[trigger] r.1.contains_key(k1) && #[trigger] r.1.contains_key(k2) && k1
                        != k2 ==> r.1[k1].spec_location() + r.1[k1].spec_size()
                        <= r.1[k2].spec_location() || r.1[k2].spec_location()
                        + r.1[k2].spec_size() <= r.1[k1].spec_location()
            },
            Err(_) => true,
        },
    decreases d.len() - off,
{
    if off >= d.len() {
    } else if off + 16 > d.len() {
    } else {
        let pos = le32_at(d, off);
        let len = le64_at(d, off + 8);
        if off + 16 + len > d.len() {
        } else if pos >= 1024 {
        } else if used.contains(pos as int) {
        } else {
            let payload = d.subrange(off + 16, off + 16 + len);
            let comp = zlib_compress_of(payload);
            let total = chunk_total_of(payload);
            lemma_total_within(comp.len() + 5 as int);
            if total > 255 * 4096 {
            } else if location / 4096 > 0xFFFFFF {
            } else {
                let ls = (location / 4096) as u32;
                let ss = (total / 4096) as u32;
                crate::region::lemma_locdata_pack(ls, ss);
                let ci = ChunkInfo { locdata: pack_locdata(ls, ss), timestamp: be32_at(d, off + 4) };
                assert(ci.spec_location() == location);
                assert(ci.spec_size() == total);
                assert(ci.wf());
                lemma_decompact_from_chunks(d, off + 16 + len, location + total, used.insert(pos as int));
                lemma_chunk_bytes_len(payload);
                let cb = chunk_bytes_of(payload);
                match decompact_from(d, off + 16 + len, location + total, used.insert(pos as int)) {
                    Err(_) => {},
                    Ok(rest) => {
                        let r0 = cb + rest.0;
                        let r1 = rest.1.insert(pos as int, ci);
                        // the declared length of the fresh chunk
                        let lw = (comp.len() + 1) as u32;
                        crate::bytes::lemma_be32_round_trip(lw);
                        assert forall|j: int| 0 <= j < 4 implies r0[j] == be32_bytes(lw)[j] by {
                            assert(cb[j] == be32_bytes(lw)[j]);
                        }
                        assert(be32_at(r0, 0) == be32_at(be32_bytes(lw), 0));
                        assert(comp.len() + 1 < 0x100000000);
                        assert(lw == comp.len() + 1);
                        assert(be32_at(r0, ci.spec_location() - location) + 4 <= ci.spec_size());
                        // entries of the recursive run, shifted past the fresh chunk
                        assert forall|k: int| #[trigger] rest.1.contains_key(k) implies {
                            let cik = rest.1[k];
                            &&& location <= cik.spec_location()
                            &&& cik.spec_location() + cik.spec_size() <= location + r0.len()
                            &&& be32_at(r0, cik.spec_location() - location) + 4 <= cik.spec_size()
                        } by {
                            let cik = rest.1[k];
                            let rel = cik.spec_location() - (location + total);
                            assert(be32_at(rest.0, rel) + 4 <= cik.spec_size());
                            assert forall|j: int| 0 <= j < 4 implies #[trigger] r0[total + rel + j] == rest.0[rel + j] by {}
                            assert(be32_at(r0, total + rel) == be32_at(rest.0, rel));
                            assert(cik.spec_location() - location == total + rel);
                        }
                        assert forall|k: int| #[trigger] r1.contains_key(k) implies {
                            let cik = r1[k];
                            &&& cik.wf()
                            &&& cik.spec_location() % 4096 == 0
                            &&& cik.spec_size() % 4096 == 0
                            &&& 4096 <= cik.spec_size() <= 255 * 4096
                            &&& location <= cik.spec_location()
                            &&& cik.spec_location() + cik.spec_size() <= location + r0.len()
                            &&& be32_at(r0, cik.spec_location() - location) + 4 <= cik.spec_size()
                        } by {
                            if k == pos as int {
                            } else {
                                assert(rest.1.contains_key(k));
                            }
                        }
                        assert forall|k1: int, k2: int|
                            #[trigger] r1.contains_key(k1) && #[trigger] r1.contains_key(k2)
                                && k1 != k2 implies r1[k1].spec_location() + r1[k1].spec_size()
                                <= r1[k2].spec_location() || r1[k2].spec_location()
                                + r1[k2].spec_size() <= r1[k1].spec_location() by {
                            if k1 == pos as int {
                                assert(rest.1.contains_key(k2));
                                assert(location + total <= rest.1[k2].spec_location());
                            } else if k2 == pos as int {
                                assert(rest.1.contains_key(k1));
                                assert(location + total <= rest.1[k1].spec_location());
                            } else {
                                assert(rest.1.contains_key(k1) && rest.1.contains_key(k2));
                            }
                        }
                    },
                }
            }
        }
    }
}

/// Laws of the decompact output: its descriptor table references only
/// present, sector-aligned chunks lying past the 8192-byte table and
/// within the image, no two of them overlap, and the length declared
/// inside each chunk is at most its descriptor's size less four.
pub proof fn lemma_decompact_output_chunks(d: Seq<u8>)
    ensures
        match decompact_from(d, 0, 8192, Set::empty()) {
            Ok(r) => {
                let out = region_header_bytes(r.1) + r.0;
                &&& decompact_spec(d) == Ok::<Seq<u8>, CodecError>(out)
                &&& forall|k: int| #[trigger] r.1.contains_key(k) ==> {
                    let ci = r.1[k];
                    &&& ci.wf()
                    &&& ci.spec_location() % 4096 == 0
                    &&& ci.spec_size() % 4096 == 0
                    &&& 4096 <= ci.spec_size() <= 255 * 4096
                    &&& 8192 <= ci.spec_location()
                    &&& ci.spec_location() + ci.spec_size() <= out.len()
                    &&& be32_at(out, ci.spec_location()) + 4 <= ci.spec_size()
                }
                &&& forall|k1: int, k2: int|
                    #[trigger] r.1.contains_key(k1) && #[trigger] r.1.contains_key(k2) && k1
                        != k2 ==> r.1[k1].spec_location() + r.1[k1].spec_size()
                        <= r.1[k2].spec_location() || r.1[k2].spec_location()
                        + r.1[k2].spec_size() <= r.1[k1].spec_location()
            },
            Err(_) => decompact_spec(d) is Err,
        },
{
    lemma_decompact_from_chunks(d, 0, 8192, Set::empty());
    match decompact_from(d, 0, 8192, Set::empty()) {
        Err(_) => {},
        Ok(r) => {
            let h = region_header_bytes(r.1);
            lemma_row_lens(r.1, 1024);
            assert(h.len() == 8192);
            let out = h + r.0;
            assert forall|k: int| #[trigger] r.1.contains_key(k) implies be32_at(
                out,
                r.1[k].spec_location(),
            ) + 4 <= r.1[k].spec_size() by {
                let ci = r.1[k];
                let rel = ci.spec_location() - 8192;
                assert(be32_at(r.0, rel) + 4 <= ci.spec_size());
                assert forall|j: int| 0 <= j < 4 implies #[trigger] out[8192 + rel + j] == r.0[rel + j] by {}
                assert(be32_at(out, 8192 + rel) == be32_at(r.0, rel));
            }
        },
    }
}

} // verus!



