//! The round-trip laws of the two pipelines, stated over the spec-level
//! pipeline functions.
//!
//! A bin stream is viewed as a sequence of records `(pos, timestamp,
//! payload)`; compacting a region emits such records, and decompacting a
//! stream of them places one chunk per record. The laws say that the two
//! directions invert each other: recompacting a decompacted stream yields
//! the stream back, and decompacting a compacted region preserves every
//! chunk's position, timestamp and decompressed bytes.

use vstd::prelude::*;
use crate::bin::{bin_header_bytes, lemma_bin_header_round_trip};
use crate::bytes::{be32_bytes, be32_at, le32_at, le64_at};
use crate::chunk::{sector_decompress, CompressionType};
use crate::codec::{zlib_compress_of, zlib_decompress_of};
use crate::error::CodecError;
use crate::pipeline::{
    chunk_bytes_of, chunk_total_of, compact_from, compact_spec, decompact_from, decompact_spec,
    lemma_chunk_bytes_len, lemma_decompact_from_chunks, lemma_decompact_from_dom, lemma_row_lens,
    lemma_total_within, locdata_row, region_header_bytes, timestamp_row, with_prefix,
    zlib_inverts_on_records,
};
use crate::region::{entry_at, entry_key, insert_by_loc, locdata_at, raw_entries, region_table, sort_by_loc, sorted_by_loc, timestamp_at, ChunkInfo};
use vstd::seq_lib::group_to_multiset_ensures;

verus! {

/// The records the table entries from `i` on compact to: one per entry,
/// carrying the entry's position, its timestamp, and the decompressed
/// bytes of its chunk.
pub open spec fn compact_records_from(
    d: Seq<u8>,
    t: Seq<(ChunkInfo, u16)>,
    i: int,
    pos: int,
) -> Result<Seq<(u32, u32, Seq<u8>)>, CodecError>
    decreases t.len() - i,
{
    if i < 0 || i >= t.len() {
        Ok(Seq::empty())
    } else {
        let ci = t[i].0;
        let p = t[i].1;
        if ci.spec_location() < pos {
            Err(CodecError::MalformedRegion)
        } else if ci.spec_location() + ci.spec_size() > d.len() {
            Err(CodecError::MalformedRegion)
        } else {
            match sector_decompress(
                d.subrange(ci.spec_location(), ci.spec_location() + ci.spec_size()),
            ) {
                Err(e) => Err(e),
                Ok(payload) => match compact_records_from(
                    d,
                    t,
                    i + 1,
                    ci.spec_location() + ci.spec_size(),
                ) {
                    Err(e) => Err(e),
                    Ok(rest) => Ok(seq![(p as u32, ci.timestamp, payload)] + rest),
                },
            }
        }
    }
}

/// The records a whole region image compacts to.
pub open spec fn compact_records(d: Seq<u8>) -> Result<Seq<(u32, u32, Seq<u8>)>, CodecError> {
    if d.len() < 8192 {
        Err(CodecError::UnexpectedEof)
    } else {
        compact_records_from(d, region_table(d), 0, 8192)
    }
}

/// The bin stream a record sequence serializes to: each record's 16-byte
/// header, then its payload.
pub open spec fn bin_encode(rs: Seq<(u32, u32, Seq<u8>)>) -> Seq<u8>
    decreases rs.len(),
{
    if rs.len() == 0 {
        Seq::empty()
    } else {
        bin_header_bytes(rs[0].0, rs[0].1, rs[0].2.len() as u64) + rs[0].2 + bin_encode(
            rs.skip(1),
        )
    }
}

/// The byte output of compacting is exactly the serialization of its
/// record output, and each record carries its table entry's position and
/// timestamp and its chunk's decompressed bytes.
pub proof fn lemma_compact_encodes(d: Seq<u8>, t: Seq<(ChunkInfo, u16)>, i: int, pos: int)
    ensures
        match compact_records_from(d, t, i, pos) {
            Ok(rs) => {
                &&& compact_from(d, t, i, pos) == Ok::<Seq<u8>, CodecError>(bin_encode(rs))
                &&& rs.len() == if i < 0 {
                    0
                } else if i > t.len() {
                    0
                } else {
                    t.len() - i
                }
                &&& forall|j: int|
                    0 <= j < rs.len() ==> (#[trigger] rs[j]).0 == t[i + j].1 as u32 && rs[j].1
                        == t[i + j].0.timestamp && sector_decompress(
                        d.subrange(
                            t[i + j].0.spec_location(),
                            t[i + j].0.spec_location() + t[i + j].0.spec_size(),
                        ),
                    ) == Ok::<Seq<u8>, CodecError>(rs[j].2)
            },
            Err(e) => compact_from(d, t, i, pos) == Err::<Seq<u8>, CodecError>(e),
        },
    decreases t.len() - i,
{
    if i < 0 || i >= t.len() {
        assert(bin_encode(Seq::empty()) =~= Seq::<u8>::empty());
    } else {
        let ci = t[i].0;
        let p = t[i].1;
        if ci.spec_location() < pos {
        } else if ci.spec_location() + ci.spec_size() > d.len() {
        } else {
            let sector = d.subrange(ci.spec_location(), ci.spec_location() + ci.spec_size());
            match sector_decompress(sector) {
                Err(_) => {},
                Ok(payload) => {
                    lemma_compact_encodes(d, t, i + 1, ci.spec_location() + ci.spec_size());
                    match compact_records_from(d, t, i + 1, ci.spec_location() + ci.spec_size()) {
                        Err(_) => {},
                        Ok(rest) => {
                            let r0 = (p as u32, ci.timestamp, payload);
                            let rs = seq![r0] + rest;
                            assert(compact_records_from(d, t, i, pos) == Ok::<
                                Seq<(u32, u32, Seq<u8>)>,
                                CodecError,
                            >(rs));
                            assert(rs[0] == r0);
                            assert(rs.skip(1) =~= rest);
                            assert(bin_encode(rs) == bin_header_bytes(
                                r0.0,
                                r0.1,
                                r0.2.len() as u64,
                            ) + r0.2 + bin_encode(rest));
                            assert(compact_from(d, t, i, pos) == with_prefix(
                                bin_header_bytes(p as u32, ci.timestamp, payload.len() as u64)
                                    + payload,
                                compact_from(d, t, i + 1, ci.spec_location() + ci.spec_size()),
                            ));
                            assert((bin_header_bytes(p as u32, ci.timestamp, payload.len() as u64)
                                + payload) + bin_encode(rest) =~= bin_encode(rs));
                            assert(forall|j: int|
                                1 <= j < rs.len() ==> #[trigger] rs[j] == rest[j - 1]);
                        },
                    }
                },
            }
        }
    }
}


/// Re-reading a recompressed chunk yields the payload it was built from,
/// as the zlib decoder inverts the encoder on that stream.
proof fn lemma_chunk_bytes_decompress(payload: Seq<u8>)
    requires
        chunk_total_of(payload) <= 255 * 4096,
        zlib_decompress_of(zlib_compress_of(payload)) == Some(payload),
    ensures
        sector_decompress(chunk_bytes_of(payload)) == Ok::<Seq<u8>, CodecError>(payload),
{
    let comp = zlib_compress_of(payload);
    let cb = chunk_bytes_of(payload);
    lemma_chunk_bytes_len(payload);
    lemma_total_within(comp.len() + 5 as int);
    let lw = (comp.len() + 1) as u32;
    crate::bytes::lemma_be32_round_trip(lw);
    assert forall|j: int| 0 <= j < 4 implies cb[j] == crate::bytes::be32_bytes(lw)[j] by {}
    assert(be32_at(cb, 0) == be32_at(crate::bytes::be32_bytes(lw), 0));
    assert(comp.len() + 1 < 0x100000000);
    assert(be32_at(cb, 0) == comp.len() + 1);
    assert(cb[4] == 2);
    assert(crate::chunk::compression_type_of_byte(cb[4]) == Some(CompressionType::Zlib));
    assert(be32_at(cb, 0) >= 1);
    assert(be32_at(cb, 0) - 1 == comp.len());
    assert(cb.len() - 5 >= comp.len());
    assert(cb.subrange(5, 5 + comp.len() as int) =~= comp);
}

/// Where the byte range from `off` on is the serialization of records
/// `rs`, a successful decompact run from `off` places one chunk per
/// record: at the record's position, with its timestamp, holding the
/// recompressed payload; the chunks sit consecutively from `location` on,
/// the record positions are distinct, and the table holds nothing else.
proof fn lemma_decompact_of_records(
    b: Seq<u8>,
    off: int,
    rs: Seq<(u32, u32, Seq<u8>)>,
    location: int,
    used: Set<int>,
)
    requires
        0 <= off <= b.len(),
        b.subrange(off, b.len() as int) == bin_encode(rs),
        forall|j: int| 0 <= j < rs.len() ==> (#[trigger] rs[j]).2.len() <= u64::MAX,
        location % 4096 == 0,
        location >= 0,
    ensures
        match decompact_from(b, off, location, used) {
            Ok(r) => {
                &&& forall|j1: int, j2: int|
                    0 <= j1 < j2 < rs.len() ==> (#[trigger] rs[j1]).0 != (#[trigger] rs[j2]).0
                &&& forall|k: int|
                    #[trigger] r.1.contains_key(k) ==> exists|j: int|
                        0 <= j < rs.len() && (#[trigger] rs[j]).0 == k
                &&& forall|j: int|
                    0 <= j < rs.len() ==> {
                        let pos = (#[trigger] rs[j]).0 as int;
                        let ci = r.1[pos];
                        &&& r.1.contains_key(pos)
                        &&& ci.timestamp == rs[j].1
                        &&& ci.spec_size() == chunk_total_of(rs[j].2)
                        &&& location <= ci.spec_location()
                        &&& ci.spec_location() + ci.spec_size() <= location + r.0.len()
                        &&& r.0.subrange(
                            ci.spec_location() - location,
                            ci.spec_location() - location + ci.spec_size(),
                        ) == chunk_bytes_of(rs[j].2)
                    }
                &&& rs.len() > 0 ==> r.1[rs[0].0 as int].spec_location() == location
                &&& forall|j: int|
                    0 <= j < rs.len() - 1 ==> r.1[(#[trigger] rs[j + 1]).0 as int].spec_location()
                        == r.1[rs[j].0 as int].spec_location() + r.1[rs[j].0 as int].spec_size()
            },
            Err(_) => true,
        },
    decreases rs.len(),
{
    if rs.len() == 0 {
        assert(bin_encode(rs) =~= Seq::<u8>::empty());
        assert(b.len() - off == 0);
        match decompact_from(b, off, location, used) {
            Ok(r) => {
                assert(r.1 =~= Map::<int, ChunkInfo>::empty());
            },
            Err(_) => {},
        }
    } else {
        let suffix = b.subrange(off, b.len() as int);
        let r0 = rs[0];
        let hdr = bin_header_bytes(r0.0, r0.1, r0.2.len() as u64);
        let enc_rest = bin_encode(rs.skip(1));
        assert(suffix == hdr + r0.2 + enc_rest);
        let plen = r0.2.len() as int;
        assert(suffix.len() == 16 + plen + enc_rest.len());
        assert forall|k: int| 0 <= k < suffix.len() implies #[trigger] b[off + k] == suffix[k] by {}
        lemma_bin_header_round_trip(r0.0, r0.1, r0.2.len() as u64);
        assert forall|k: int| 0 <= k < 16 implies #[trigger] b[off + k] == hdr[k] by {
            assert(b[off + k] == suffix[k]);
            assert(suffix[k] == hdr[k]);
        }
        assert(b[off + 0] == hdr[0] && b[off + 1] == hdr[1] && b[off + 2] == hdr[2] && b[off
            + 3] == hdr[3]);
        assert(b[off] == b[off + 0]);
        assert(le32_at(b, off) == le32_at(hdr, 0));
        assert(b[off + 4] == hdr[4] && b[off + 5] == hdr[5] && b[off + 6] == hdr[6] && b[off
            + 7] == hdr[7]);
        assert(be32_at(b, off + 4) == be32_at(hdr, 4));
        assert(b[off + 8] == hdr[8] && b[off + 9] == hdr[9] && b[off + 10] == hdr[10] && b[off
            + 11] == hdr[11] && b[off + 12] == hdr[12] && b[off + 13] == hdr[13] && b[off + 14]
            == hdr[14] && b[off + 15] == hdr[15]);
        assert(le64_at(b, off + 8) == le64_at(hdr, 8));
        let pos = le32_at(b, off);
        let len = le64_at(b, off + 8);
        assert(pos == r0.0);
        assert(len == r0.2.len() as u64);
        assert(len == plen);
        assert(off + 16 + len <= b.len());
        match decompact_from(b, off, location, used) {
            Err(_) => {},
            Ok(r) => {
                // every guard passed, so the step placed one chunk and recursed
                let payload = b.subrange(off + 16, off + 16 + len);
                assert forall|m: int| 0 <= m < plen implies #[trigger] payload[m] == r0.2[m] by {
                    assert(b[off + (16 + m)] == suffix[16 + m]);
                    assert(payload[m] == b[off + 16 + m]);
                    assert(suffix[16 + m] == r0.2[m]);
                }
                assert(payload =~= r0.2);
                let total = chunk_total_of(payload);
                assert(total <= 255 * 4096);
                assert(location / 4096 <= 0xFFFFFF);
                lemma_total_within(zlib_compress_of(payload).len() + 5 as int);
                let ls = (location / 4096) as u32;
                let ss = (total / 4096) as u32;
                crate::region::lemma_locdata_pack(ls, ss);
                let ci0 = ChunkInfo {
                    locdata: crate::region::pack_locdata(ls, ss),
                    timestamp: be32_at(b, off + 4),
                };
                assert(ci0.spec_location() == location);
                assert(ci0.spec_size() == total);
                assert(ci0.timestamp == r0.1);
                let inner = decompact_from(
                    b,
                    off + 16 + len,
                    location + total,
                    used.insert(pos as int),
                );
                assert(inner is Ok);
                let rest_r = inner->Ok_0;
                assert(r.0 == chunk_bytes_of(payload) + rest_r.0);
                assert(r.1 == rest_r.1.insert(pos as int, ci0));
                lemma_chunk_bytes_len(payload);
                let cb = chunk_bytes_of(payload);
                assert(cb.len() == total);
                // the recursive run consumes exactly the remaining records
                let tail = b.subrange(off + 16 + len, b.len() as int);
                assert forall|m: int| 0 <= m < enc_rest.len() implies #[trigger] tail[m]
                    == enc_rest[m] by {
                    assert(b[off + (16 + plen + m)] == suffix[16 + plen + m]);
                    assert(tail[m] == b[off + 16 + len + m]);
                    assert(suffix[16 + plen + m] == enc_rest[m]);
                }
                assert(tail =~= enc_rest);
                assert(forall|j: int|
                    0 <= j < rs.skip(1).len() ==> (#[trigger] rs.skip(1)[j]).2.len()
                        <= u64::MAX);
                lemma_decompact_of_records(
                    b,
                    off + 16 + len,
                    rs.skip(1),
                    location + total,
                    used.insert(pos as int),
                );
                lemma_decompact_from_dom(b, off + 16 + len, location + total, used.insert(pos as int));
                assert(!rest_r.1.contains_key(pos as int));
                let rest = rs.skip(1);
                assert(forall|j: int| 1 <= j < rs.len() ==> #[trigger] rs[j] == rest[j - 1]);
                // the fresh chunk stands first in the emitted body
                assert(r.0.subrange(0, total) =~= cb);
                // record positions are distinct
                assert forall|j1: int, j2: int| 0 <= j1 < j2 < rs.len() implies (
                #[trigger] rs[j1]).0 != (#[trigger] rs[j2]).0 by {
                    if j1 == 0 {
                        assert(rest_r.1.contains_key(rest[j2 - 1].0 as int));
                        assert(rs[j2].0 == rest[j2 - 1].0);
                    }
                }
                // the table holds record positions only
                assert forall|k: int| #[trigger] r.1.contains_key(k) implies exists|j: int|
                    0 <= j < rs.len() && (#[trigger] rs[j]).0 == k by {
                    if k == pos as int {
                        assert(0 <= 0 < rs.len() && rs[0].0 == k);
                    } else {
                        assert(rest_r.1.contains_key(k));
                        let j0 = choose|j: int| 0 <= j < rest.len() && (#[trigger] rest[j]).0 == k;
                        assert(rs[j0 + 1].0 == k);
                    }
                }
                // each record's chunk
                assert forall|j: int| 0 <= j < rs.len() implies {
                    let posj = (#[trigger] rs[j]).0 as int;
                    let cij = r.1[posj];
                    &&& r.1.contains_key(posj)
                    &&& cij.timestamp == rs[j].1
                    &&& cij.spec_size() == chunk_total_of(rs[j].2)
                    &&& location <= cij.spec_location()
                    &&& cij.spec_location() + cij.spec_size() <= location + r.0.len()
                    &&& r.0.subrange(
                        cij.spec_location() - location,
                        cij.spec_location() - location + cij.spec_size(),
                    ) == chunk_bytes_of(rs[j].2)
                } by {
                    if j == 0 {
                        assert(r.1[pos as int] == ci0);
                        assert(r.0.subrange(0, total) =~= cb);
                    } else {
                        let posj = rs[j].0 as int;
                        assert(rest_r.1.contains_key(posj));
                        assert(posj != pos as int);
                        let cij = rest_r.1[posj];
                        assert(r.1[posj] == cij);
                        let rel = cij.spec_location() - (location + total);
                        assert(rest_r.0.subrange(rel, rel + cij.spec_size()) == chunk_bytes_of(
                            rest[j - 1].2,
                        ));
                        assert(r.0.subrange(total + rel, total + rel + cij.spec_size())
                            =~= rest_r.0.subrange(rel, rel + cij.spec_size()));
                        assert(cij.spec_location() - location == total + rel);
                    }
                }
                // consecutive placement
                if rs.len() > 1 {
                    assert(rest_r.1[rest[0].0 as int].spec_location() == location + total);
                }
                assert forall|j: int| 0 <= j < rs.len() - 1 implies r.1[(
                #[trigger] rs[j + 1]).0 as int].spec_location() == r.1[rs[j].0 as int].spec_location()
                    + r.1[rs[j].0 as int].spec_size() by {
                    if j == 0 {
                        assert(rest_r.1.contains_key(rest[0].0 as int));
                        assert(rs[1].0 == rest[0].0);
                        assert(r.1[rs[1].0 as int] == rest_r.1[rest[0].0 as int]);
                    } else {
                        assert(rest_r.1.contains_key(rest[j - 1].0 as int));
                        assert(rest_r.1.contains_key(rest[j].0 as int));
                        assert(rest_r.1[rest[j].0 as int].spec_location() == rest_r.1[rest[j
                            - 1].0 as int].spec_location() + rest_r.1[rest[j - 1].0 as int].spec_size());
                    }
                }
            },
        }
    }
}


/// Law: decompacting a compacted region preserves every chunk. Where a
/// region image `d` compacts to a bin stream `b`, `b` decompacts
/// successfully, the zlib decoder inverts the encoder on each record's
/// payload (which the encoder wrapper guarantees of every stream this
/// crate writes), and every
/// decompressed chunk fits the 64-bit record length, the rebuilt image
/// holds, for every position of `d`'s table, a chunk with the same
/// timestamp whose bytes decompress to the same payload as the original
/// chunk's. The images are not byte-identical: the rebuilt chunks are
/// recompressed with zlib.
pub proof fn lemma_compact_then_decompact(d: Seq<u8>, b: Seq<u8>)
    ensures
        ({
            &&& compact_spec(d) == Ok::<Seq<u8>, CodecError>(b)
            &&& decompact_from(b, 0, 8192, Set::empty()) is Ok
            &&& match compact_records(d) {
                Ok(rs) => forall|j: int|
                    0 <= j < rs.len() ==> (#[trigger] rs[j]).2.len() <= u64::MAX
                        && zlib_decompress_of(zlib_compress_of(rs[j].2)) == Some(rs[j].2),
                Err(_) => true,
            }
        }) ==> ({
            let r = decompact_from(b, 0, 8192, Set::empty())->Ok_0;
            let out = region_header_bytes(r.1) + r.0;
            &&& decompact_spec(b) == Ok::<Seq<u8>, CodecError>(out)
            &&& forall|j: int|
                0 <= j < region_table(d).len() ==> {
                    let ci = (#[trigger] region_table(d)[j]).0;
                    let p = region_table(d)[j].1;
                    &&& r.1.contains_key(p as int)
                    &&& r.1[p as int].timestamp == ci.timestamp
                    &&& sector_decompress(
                        out.subrange(
                            r.1[p as int].spec_location(),
                            r.1[p as int].spec_location() + r.1[p as int].spec_size(),
                        ),
                    ) == sector_decompress(
                        d.subrange(ci.spec_location(), ci.spec_location() + ci.spec_size()),
                    )
                }
        }),
{
    if compact_spec(d) == Ok::<Seq<u8>, CodecError>(b) && decompact_from(
        b,
        0,
        8192,
        Set::empty(),
    ) is Ok && (match compact_records(d) {
        Ok(rs) => forall|j: int|
            0 <= j < rs.len() ==> (#[trigger] rs[j]).2.len() <= u64::MAX
                && zlib_decompress_of(zlib_compress_of(rs[j].2)) == Some(rs[j].2),
        Err(_) => true,
    }) {
        let t = region_table(d);
        assert(d.len() >= 8192);
        lemma_compact_encodes(d, t, 0, 8192);
        match compact_records_from(d, t, 0, 8192) {
            Err(e) => {
                assert(false);
            },
            Ok(rs) => {
                assert(b == bin_encode(rs));
                assert(b.subrange(0, b.len() as int) =~= b);
                lemma_decompact_of_records(b, 0, rs, 8192, Set::empty());
                lemma_decompact_from_chunks(b, 0, 8192, Set::empty());
                let r = decompact_from(b, 0, 8192, Set::empty())->Ok_0;
                lemma_row_lens(r.1, 1024);
                let out = region_header_bytes(r.1) + r.0;
                assert(rs.len() == t.len());
                assert forall|j: int| 0 <= j < region_table(d).len() implies {
                    let ci = (#[trigger] region_table(d)[j]).0;
                    let p = region_table(d)[j].1;
                    &&& r.1.contains_key(p as int)
                    &&& r.1[p as int].timestamp == ci.timestamp
                    &&& sector_decompress(
                        out.subrange(
                            r.1[p as int].spec_location(),
                            r.1[p as int].spec_location() + r.1[p as int].spec_size(),
                        ),
                    ) == sector_decompress(
                        d.subrange(ci.spec_location(), ci.spec_location() + ci.spec_size()),
                    )
                } by {
                    let ci = t[j].0;
                    let p = t[j].1;
                    let pos = p as int;
                    assert(rs[j].0 == p as u32);
                    assert(rs[j].0 as int == pos);
                    assert(r.1.contains_key(pos));
                    let cio = r.1[pos];
                    assert(cio.timestamp == rs[j].1);
                    assert(cio.spec_size() == chunk_total_of(rs[j].2));
                    assert(cio.spec_size() <= 255 * 4096);
                    lemma_chunk_bytes_decompress(rs[j].2);
                    let rel = cio.spec_location() - 8192;
                    assert(r.0.subrange(rel, rel + cio.spec_size()) == chunk_bytes_of(rs[j].2));
                    let sub = out.subrange(
                        cio.spec_location(),
                        cio.spec_location() + cio.spec_size(),
                    );
                    assert forall|m: int| 0 <= m < cio.spec_size() implies #[trigger] sub[m]
                        == r.0[rel + m] by {
                        assert(sub[m] == out[cio.spec_location() + m]);
                        assert(out[8192 + (rel + m)] == r.0[rel + m]);
                        assert(cio.spec_location() + m == 8192 + (rel + m));
                    }
                    assert(sub =~= r.0.subrange(rel, rel + cio.spec_size()));
                    assert(sector_decompress(sub) == Ok::<Seq<u8>, CodecError>(rs[j].2));
                    assert(sector_decompress(
                        d.subrange(ci.spec_location(), ci.spec_location() + ci.spec_size()),
                    ) == Ok::<Seq<u8>, CodecError>(rs[j].2));
                }
            },
        }
    }
}


/// Inserting into a table by location adds exactly that entry.
proof fn lemma_insert_by_loc_multiset(s: Seq<(ChunkInfo, u16)>, e: (ChunkInfo, u16))
    ensures
        insert_by_loc(s, e).to_multiset() =~= s.to_multiset().insert(e),
    decreases s.len(),
{
    broadcast use group_to_multiset_ensures;

    if s.len() == 0 {
        assert(seq![e] =~= Seq::<(ChunkInfo, u16)>::empty().push(e));
    } else if entry_key(s.last()) <= entry_key(e) {
    } else {
        let dl = s.drop_last();
        lemma_insert_by_loc_multiset(dl, e);
        assert(s =~= dl.push(s.last()));
        assert(insert_by_loc(s, e).to_multiset() =~= dl.to_multiset().insert(e).insert(
            s.last(),
        ));
        assert(dl.to_multiset().insert(e).insert(s.last()) =~= dl.to_multiset().insert(
            s.last(),
        ).insert(e));
    }
}

/// Sorting a table by location permutes it.
proof fn lemma_sort_by_loc_multiset(s: Seq<(ChunkInfo, u16)>)
    ensures
        sort_by_loc(s).to_multiset() =~= s.to_multiset(),
    decreases s.len(),
{
    broadcast use group_to_multiset_ensures;

    if s.len() == 0 {
    } else {
        let dl = s.drop_last();
        lemma_sort_by_loc_multiset(dl);
        lemma_insert_by_loc_multiset(sort_by_loc(dl), s.last());
        assert(s =~= dl.push(s.last()));
    }
}

/// Inserting into a location-sorted table keeps it sorted.
proof fn lemma_insert_by_loc_sorted(s: Seq<(ChunkInfo, u16)>, e: (ChunkInfo, u16))
    requires
        sorted_by_loc(s),
    ensures
        sorted_by_loc(insert_by_loc(s, e)),
    decreases s.len(),
{
    broadcast use group_to_multiset_ensures;

    if s.len() == 0 {
    } else if entry_key(s.last()) <= entry_key(e) {
        let r = s.push(e);
        assert forall|i: int, j: int| 0 <= i < j < r.len() implies entry_key(#[trigger] r[i])
            <= entry_key(#[trigger] r[j]) by {
            if j < r.len() - 1 {
                assert(r[i] == s[i] && r[j] == s[j]);
            } else {
                if i < s.len() - 1 {
                    assert(entry_key(s[i]) <= entry_key(s[s.len() - 1]));
                }
            }
        }
    } else {
        let dl = s.drop_last();
        assert forall|i: int, j: int| 0 <= i < j < dl.len() implies entry_key(#[trigger] dl[i])
            <= entry_key(#[trigger] dl[j]) by {
            assert(dl[i] == s[i] && dl[j] == s[j]);
        }
        lemma_insert_by_loc_sorted(dl, e);
        lemma_insert_by_loc_multiset(dl, e);
        let ins = insert_by_loc(dl, e);
        // every entry of the inserted front sits at or before the old last
        assert forall|i: int| 0 <= i < ins.len() implies entry_key(#[trigger] ins[i])
            <= entry_key(s.last()) by {
            assert(ins.to_multiset().count(ins[i]) > 0);
            assert(ins.contains(ins[i]));
            if ins[i] == e {
            } else {
                assert(dl.to_multiset().count(ins[i]) > 0);
                assert(dl.contains(ins[i]));
                let k = choose|k: int| 0 <= k < dl.len() && dl[k] == ins[i];
                assert(entry_key(s[k]) <= entry_key(s[s.len() - 1]));
            }
        }
        let r = ins.push(s.last());
        assert forall|i: int, j: int| 0 <= i < j < r.len() implies entry_key(#[trigger] r[i])
            <= entry_key(#[trigger] r[j]) by {
            if j < r.len() - 1 {
                assert(r[i] == ins[i] && r[j] == ins[j]);
            } else {
                assert(r[i] == ins[i]);
            }
        }
    }
}

/// Sorting a table by location sorts it.
proof fn lemma_sort_by_loc_sorted(s: Seq<(ChunkInfo, u16)>)
    ensures
        sorted_by_loc(sort_by_loc(s)),
    decreases s.len(),
{
    if s.len() == 0 {
    } else {
        lemma_sort_by_loc_sorted(s.drop_last());
        lemma_insert_by_loc_sorted(sort_by_loc(s.drop_last()), s.last());
    }
}

/// Two location-sorted tables that permute each other are equal where the
/// second one's locations are pairwise distinct.
proof fn lemma_sorted_by_loc_unique(s1: Seq<(ChunkInfo, u16)>, s2: Seq<(ChunkInfo, u16)>)
    requires
        sorted_by_loc(s1),
        sorted_by_loc(s2),
        s1.to_multiset() == s2.to_multiset(),
        forall|i: int, j: int|
            0 <= i < j < s2.len() ==> entry_key(#[trigger] s2[i]) != entry_key(#[trigger] s2[j]),
    ensures
        s1 == s2,
    decreases s1.len(),
{
    broadcast use group_to_multiset_ensures;

    assert(s1.len() == s1.to_multiset().len());
    assert(s2.len() == s2.to_multiset().len());
    assert(s1.len() == s2.len());
    if s1.len() == 0 {
        assert(s1 =~= s2);
    } else {
        // the two heads carry the minimal location, and it is unique
        assert(s1.to_multiset().count(s1[0]) > 0);
        assert(s2.contains(s1[0]));
        let i1 = choose|i: int| 0 <= i < s2.len() && s2[i] == s1[0];
        assert(s2.to_multiset().count(s2[0]) > 0);
        assert(s1.contains(s2[0]));
        let i2 = choose|i: int| 0 <= i < s1.len() && s1[i] == s2[0];
        assert(entry_key(s2[0]) <= entry_key(s2[i1]));
        assert(entry_key(s1[0]) <= entry_key(s1[i2]));
        assert(entry_key(s1[0]) == entry_key(s2[0]));
        assert(i1 == 0);
        assert(s1[0] == s2[0]);
        let t1 = s1.remove(0);
        let t2 = s2.remove(0);
        assert(t1.to_multiset() =~= s1.to_multiset().remove(s1[0]));
        assert(t2.to_multiset() =~= s2.to_multiset().remove(s2[0]));
        assert forall|i: int, j: int| 0 <= i < j < t1.len() implies entry_key(#[trigger] t1[i])
            <= entry_key(#[trigger] t1[j]) by {
            assert(t1[i] == s1[i + 1] && t1[j] == s1[j + 1]);
        }
        assert forall|i: int, j: int| 0 <= i < j < t2.len() implies entry_key(#[trigger] t2[i])
            <= entry_key(#[trigger] t2[j]) by {
            assert(t2[i] == s2[i + 1] && t2[j] == s2[j + 1]);
        }
        assert forall|i: int, j: int| 0 <= i < j < t2.len() implies entry_key(#[trigger] t2[i])
            != entry_key(#[trigger] t2[j]) by {
            assert(t2[i] == s2[i + 1] && t2[j] == s2[j + 1]);
        }
        lemma_sorted_by_loc_unique(t1, t2);
        assert forall|k: int| 0 <= k < s1.len() implies #[trigger] s1[k] == s2[k] by {
            if k > 0 {
                assert(t1[k - 1] == s1[k]);
                assert(t2[k - 1] == s2[k]);
            }
        }
        assert(s1 =~= s2);
    }
}


/// The entries a descriptor map holds for positions `0 .. q`, in position
/// order.
pub open spec fn tbl_entries(t: Map<int, ChunkInfo>, q: int) -> Seq<(ChunkInfo, u16)>
    decreases q,
{
    if q <= 0 {
        Seq::empty()
    } else if t.contains_key(q - 1) {
        tbl_entries(t, q - 1).push((t[q - 1], (q - 1) as u16))
    } else {
        tbl_entries(t, q - 1)
    }
}

/// The serialized rows carry each position's words at its four bytes.
proof fn lemma_row_index(t: Map<int, ChunkInfo>, n: int, p: int)
    requires
        0 <= p < n,
    ensures
        forall|j: int|
            0 <= j < 4 ==> #[trigger] locdata_row(t, n)[4 * p + j] == be32_bytes(
                if t.contains_key(p) {
                    t[p].locdata
                } else {
                    0u32
                },
            )[j],
        forall|j: int|
            0 <= j < 4 ==> #[trigger] timestamp_row(t, n)[4 * p + j] == be32_bytes(
                if t.contains_key(p) {
                    t[p].timestamp
                } else {
                    0u32
                },
            )[j],
    decreases n,
{
    lemma_row_lens(t, n - 1);
    if p == n - 1 {
    } else {
        lemma_row_index(t, n - 1, p);
        assert forall|j: int| 0 <= j < 4 implies #[trigger] locdata_row(t, n)[4 * p + j]
            == locdata_row(t, n - 1)[4 * p + j] by {}
        assert forall|j: int| 0 <= j < 4 implies #[trigger] timestamp_row(t, n)[4 * p + j]
            == timestamp_row(t, n - 1)[4 * p + j] by {}
    }
}

/// Reading the serialized descriptor table back yields each position's
/// words.
proof fn lemma_reparse_words(t: Map<int, ChunkInfo>, body: Seq<u8>)
    ensures
        forall|p: int|
            0 <= p < 1024 ==> #[trigger] locdata_at(region_header_bytes(t) + body, p) == (
            if t.contains_key(p) {
                t[p].locdata
            } else {
                0u32
            }),
        forall|p: int|
            0 <= p < 1024 ==> #[trigger] timestamp_at(region_header_bytes(t) + body, p) == (
            if t.contains_key(p) {
                t[p].timestamp
            } else {
                0u32
            }),
{
    let out = region_header_bytes(t) + body;
    lemma_row_lens(t, 1024);
    assert forall|p: int| 0 <= p < 1024 implies #[trigger] locdata_at(out, p) == (
    if t.contains_key(p) {
        t[p].locdata
    } else {
        0u32
    }) by {
        lemma_row_index(t, 1024, p);
        let wl = if t.contains_key(p) {
            t[p].locdata
        } else {
            0u32
        };
        crate::bytes::lemma_be32_round_trip(wl);
        assert forall|j: int| 0 <= j < 4 implies #[trigger] out[4 * p + j] == be32_bytes(
            wl,
        )[j] by {
            assert(out[4 * p + j] == region_header_bytes(t)[4 * p + j]);
            assert(region_header_bytes(t)[4 * p + j] == locdata_row(t, 1024)[4 * p + j]);
        }
        assert(out[4 * p] == out[4 * p + 0]);
        assert(be32_at(out, 4 * p) == be32_at(be32_bytes(wl), 0));
    }
    assert forall|p: int| 0 <= p < 1024 implies #[trigger] timestamp_at(out, p) == (
    if t.contains_key(p) {
        t[p].timestamp
    } else {
        0u32
    }) by {
        lemma_row_index(t, 1024, p);
        let wt = if t.contains_key(p) {
            t[p].timestamp
        } else {
            0u32
        };
        crate::bytes::lemma_be32_round_trip(wt);
        assert forall|j: int| 0 <= j < 4 implies #[trigger] out[4096 + 4 * p + j] == be32_bytes(
            wt,
        )[j] by {
            assert(out[4096 + 4 * p + j] == region_header_bytes(t)[4096 + 4 * p + j]);
            assert(region_header_bytes(t)[4096 + 4 * p + j] == timestamp_row(t, 1024)[4 * p
                + j]);
        }
        assert(out[4096 + 4 * p] == out[4096 + 4 * p + 0]);
        assert(be32_at(out, 4096 + 4 * p) == be32_at(be32_bytes(wt), 0));
    }
}

/// Where the serialized words of `out` match the map `t`, the raw table
/// entries of `out` are exactly `t`'s entries in position order.
proof fn lemma_reparse_entries(out: Seq<u8>, t: Map<int, ChunkInfo>, q: int)
    requires
        0 <= q <= 1024,
        forall|k: int| #[trigger] t.contains_key(k) ==> 0 <= k < 1024 && t[k].locdata != 0,
        forall|p: int|
            0 <= p < 1024 ==> #[trigger] locdata_at(out, p) == (if t.contains_key(p) {
                t[p].locdata
            } else {
                0u32
            }),
        forall|p: int|
            0 <= p < 1024 ==> #[trigger] timestamp_at(out, p) == (if t.contains_key(p) {
                t[p].timestamp
            } else {
                0u32
            }),
    ensures
        raw_entries(out, q) == tbl_entries(t, q),
    decreases q,
{
    if q > 0 {
        lemma_reparse_entries(out, t, q - 1);
        if t.contains_key(q - 1) {
            assert(locdata_at(out, q - 1) == t[q - 1].locdata);
            assert(entry_at(out, q - 1) == (t[q - 1], (q - 1) as u16));
        } else {
            assert(locdata_at(out, q - 1) == 0);
        }
    }
}

/// Membership and order of a map's position-ordered entry list.
proof fn lemma_tbl_entries_props(t: Map<int, ChunkInfo>, q: int)
    requires
        0 <= q <= 1024,
    ensures
        forall|i: int|
            0 <= i < tbl_entries(t, q).len() ==> {
                let e = #[trigger] tbl_entries(t, q)[i];
                &&& e.1 < q
                &&& t.contains_key(e.1 as int)
                &&& e.0 == t[e.1 as int]
            },
        forall|i: int, j: int|
            0 <= i < j < tbl_entries(t, q).len() ==> (#[trigger] tbl_entries(t, q)[i]).1 < (
            #[trigger] tbl_entries(t, q)[j]).1,
        forall|k: int|
            #[trigger] t.contains_key(k) && 0 <= k < q ==> tbl_entries(t, q).contains(
                (t[k], k as u16),
            ),
    decreases q,
{
    if q > 0 {
        lemma_tbl_entries_props(t, q - 1);
        let prev = tbl_entries(t, q - 1);
        if t.contains_key(q - 1) {
            let cur = prev.push((t[q - 1], (q - 1) as u16));
            assert(cur[prev.len() as int] == (t[q - 1], (q - 1) as u16));
            assert forall|i: int, j: int| 0 <= i < j < cur.len() implies (#[trigger] cur[i]).1
                < (#[trigger] cur[j]).1 by {
                if j < cur.len() - 1 {
                    assert(cur[i] == prev[i] && cur[j] == prev[j]);
                } else {
                    assert(cur[i] == prev[i]);
                    assert(prev[i].1 < q - 1);
                    assert(cur[j].1 == (q - 1) as u16);
                }
            }
            assert forall|k: int| #[trigger] t.contains_key(k) && 0 <= k < q implies cur.contains(
                (t[k], k as u16),
            ) by {
                if k < q - 1 {
                    assert(prev.contains((t[k], k as u16)));
                    let i = choose|i: int| 0 <= i < prev.len() && prev[i] == (t[k], k as u16);
                    assert(cur[i] == (t[k], k as u16));
                }
            }
        } else {
            assert forall|k: int| #[trigger] t.contains_key(k) && 0 <= k < q implies prev.contains(
                (t[k], k as u16),
            ) by {
                assert(k != q - 1);
            }
        }
    }
}


/// The entries of the decompact table listed in record order.
pub open spec fn rec_entries(t: Map<int, ChunkInfo>, rs: Seq<(u32, u32, Seq<u8>)>) -> Seq<
    (ChunkInfo, u16),
> {
    Seq::new(rs.len(), |j: int| (t[rs[j].0 as int], rs[j].0 as u16))
}

/// The position-ordered and the record-ordered entry lists of the table
/// permute each other.
proof fn lemma_entry_multisets(t: Map<int, ChunkInfo>, rs: Seq<(u32, u32, Seq<u8>)>)
    requires
        forall|j1: int, j2: int|
            0 <= j1 < j2 < rs.len() ==> (#[trigger] rs[j1]).0 != (#[trigger] rs[j2]).0,
        forall|j: int|
            0 <= j < rs.len() ==> t.contains_key((#[trigger] rs[j]).0 as int) && rs[j].0 < 1024,
        forall|k: int|
            #[trigger] t.contains_key(k) ==> 0 <= k < 1024 && exists|j: int|
                0 <= j < rs.len() && (#[trigger] rs[j]).0 == k,
    ensures
        tbl_entries(t, 1024).to_multiset() =~= rec_entries(t, rs).to_multiset(),
{
    broadcast use group_to_multiset_ensures;

    let te = tbl_entries(t, 1024);
    let re = rec_entries(t, rs);
    lemma_tbl_entries_props(t, 1024);
    assert forall|i: int, j: int|
        0 <= i < te.len() && 0 <= j < te.len() && i != j implies te[i] != te[j] by {
        if i < j {
            assert(te[i].1 < te[j].1);
        } else {
            assert(te[j].1 < te[i].1);
        }
    }
    assert(te.no_duplicates());
    te.lemma_multiset_has_no_duplicates();
    assert forall|i: int, j: int|
        0 <= i < re.len() && 0 <= j < re.len() && i != j implies re[i] != re[j] by {
        assert(rs[i].0 != rs[j].0);
        assert(re[i].1 == rs[i].0 as u16 && re[j].1 == rs[j].0 as u16);
    }
    assert(re.no_duplicates());
    re.lemma_multiset_has_no_duplicates();
    // the two lists have the same members
    assert forall|x: (ChunkInfo, u16)| te.contains(x) implies re.contains(x) by {
        let i = choose|i: int| 0 <= i < te.len() && te[i] == x;
        let k = te[i].1 as int;
        assert(t.contains_key(k) && te[i].0 == t[k]);
        let j = choose|j: int| 0 <= j < rs.len() && rs[j].0 == k;
        assert(re[j] == (t[k], k as u16));
        assert(re[j] == x);
    }
    assert forall|x: (ChunkInfo, u16)| re.contains(x) implies te.contains(x) by {
        let j = choose|j: int| 0 <= j < re.len() && re[j] == x;
        let k = rs[j].0 as int;
        assert(t.contains_key(k));
        assert(te.contains((t[k], k as u16)));
    }
    assert forall|x: (ChunkInfo, u16)|
        te.to_multiset().count(x) == re.to_multiset().count(x) by {
        if te.contains(x) {
            assert(te.to_multiset().count(x) == 1);
            assert(re.contains(x));
            assert(re.to_multiset().count(x) == 1);
        } else {
            assert(te.to_multiset().count(x) == 0);
            if re.contains(x) {
                assert(te.contains(x));
            }
            assert(re.to_multiset().count(x) == 0);
        }
    }
    assert(te.to_multiset() =~= re.to_multiset());
}

/// A list whose neighbours strictly increase in location is ordered.
proof fn lemma_increasing_chain(rec: Seq<(ChunkInfo, u16)>, i: int, j: int)
    requires
        forall|m: int|
            0 <= m < rec.len() - 1 ==> entry_key(#[trigger] rec[m]) < entry_key(rec[m + 1]),
        0 <= i <= j < rec.len(),
    ensures
        entry_key(rec[i]) <= entry_key(rec[j]),
        i < j ==> entry_key(rec[i]) < entry_key(rec[j]),
    decreases j - i,
{
    if i < j {
        lemma_increasing_chain(rec, i, j - 1);
        assert(entry_key(rec[j - 1]) < entry_key(rec[j]));
    }
}

/// Walking the rebuilt image's entries from `j` on re-reads exactly the
/// remaining records: each chunk decompresses back to its record's
/// payload, under the codec-inversion hypothesis.
proof fn lemma_compact_back(
    out: Seq<u8>,
    rec: Seq<(ChunkInfo, u16)>,
    rs: Seq<(u32, u32, Seq<u8>)>,
    body: Seq<u8>,
    t: Map<int, ChunkInfo>,
    j: int,
    pos: int,
)
    requires
        rec == rec_entries(t, rs),
        out.len() == 8192 + body.len(),
        forall|m: int| 0 <= m < body.len() ==> #[trigger] out[8192 + m] == body[m],
        0 <= j <= rs.len(),
        j < rs.len() ==> pos <= t[rs[j].0 as int].spec_location(),
        forall|i: int|
            0 <= i < rs.len() ==> t.contains_key((#[trigger] rs[i]).0 as int) && rs[i].0 < 1024,
        forall|i: int|
            0 <= i < rs.len() ==> {
                let ci = t[(#[trigger] rs[i]).0 as int];
                &&& ci.timestamp == rs[i].1
                &&& ci.spec_size() == chunk_total_of(rs[i].2)
                &&& ci.spec_size() <= 255 * 4096
                &&& 8192 <= ci.spec_location()
                &&& ci.spec_location() + ci.spec_size() <= 8192 + body.len()
                &&& body.subrange(
                    ci.spec_location() - 8192,
                    ci.spec_location() - 8192 + ci.spec_size(),
                ) == chunk_bytes_of(rs[i].2)
            },
        forall|i: int|
            0 <= i < rs.len() - 1 ==> t[(#[trigger] rs[i + 1]).0 as int].spec_location()
                == t[rs[i].0 as int].spec_location() + t[rs[i].0 as int].spec_size(),
        forall|i: int|
            0 <= i < rs.len() ==> zlib_decompress_of(zlib_compress_of((#[trigger] rs[i]).2))
                == Some(rs[i].2),
    ensures
        compact_records_from(out, rec, j, pos) == Ok::<Seq<(u32, u32, Seq<u8>)>, CodecError>(
            rs.skip(j),
        ),
    decreases rs.len() - j,
{
    if j == rs.len() {
        assert(rs.skip(j) =~= Seq::<(u32, u32, Seq<u8>)>::empty());
    } else {
        let ci = t[rs[j].0 as int];
        assert(rec[j] == (ci, rs[j].0 as u16));
        let loc = ci.spec_location();
        let size = ci.spec_size();
        let sector = out.subrange(loc, loc + size);
        assert forall|m: int| 0 <= m < size implies #[trigger] sector[m] == body[loc - 8192
            + m] by {
            assert(sector[m] == out[loc + m]);
            assert(out[8192 + (loc - 8192 + m)] == body[loc - 8192 + m]);
            assert(loc + m == 8192 + (loc - 8192 + m));
        }
        assert(sector =~= body.subrange(loc - 8192, loc - 8192 + size));
        assert(sector == chunk_bytes_of(rs[j].2));
        lemma_chunk_bytes_decompress(rs[j].2);
        assert(sector_decompress(sector) == Ok::<Seq<u8>, CodecError>(rs[j].2));
        lemma_compact_back(out, rec, rs, body, t, j + 1, loc + size);
        assert((rs[j].0 as u16) as u32 == rs[j].0);
        assert(seq![(rs[j].0, rs[j].1, rs[j].2)] + rs.skip(j + 1) =~= rs.skip(j));
        assert(rec[j].1 as u32 == rs[j].0);
        assert((rec[j].1 as u32, rec[j].0.timestamp, rs[j].2) == (rs[j].0, rs[j].1, rs[j].2));
    }
}


/// Law: compacting a decompacted stream yields the stream back. Where a
/// bin stream is the serialization of records `rs` with 64-bit-sized
/// payloads, it decompacts successfully, and the zlib decoder inverts the
/// encoder on each payload (which the encoder wrapper guarantees of every
/// stream this crate writes), compacting the rebuilt region image re-reads exactly
/// the records `rs` — each `(pos, timestamp, payload)` tuple round-trips
/// — and re-serializes them to the original bytes.
pub proof fn lemma_decompact_then_compact(rs: Seq<(u32, u32, Seq<u8>)>, b: Seq<u8>)
    ensures
        ({
            &&& b == bin_encode(rs)
            &&& forall|j: int| 0 <= j < rs.len() ==> (#[trigger] rs[j]).2.len() <= u64::MAX
            &&& decompact_from(b, 0, 8192, Set::empty()) is Ok
            &&& forall|j: int|
                0 <= j < rs.len() ==> zlib_decompress_of(zlib_compress_of((#[trigger] rs[j]).2))
                    == Some(rs[j].2)
        }) ==> ({
            let r = decompact_from(b, 0, 8192, Set::empty())->Ok_0;
            let out = region_header_bytes(r.1) + r.0;
            &&& decompact_spec(b) == Ok::<Seq<u8>, CodecError>(out)
            &&& compact_records(out) == Ok::<Seq<(u32, u32, Seq<u8>)>, CodecError>(rs)
            &&& compact_spec(out) == Ok::<Seq<u8>, CodecError>(b)
        }),
{
    if b == bin_encode(rs) && (forall|j: int|
        0 <= j < rs.len() ==> (#[trigger] rs[j]).2.len() <= u64::MAX) && decompact_from(
        b,
        0,
        8192,
        Set::empty(),
    ) is Ok && (forall|j: int|
        0 <= j < rs.len() ==> zlib_decompress_of(zlib_compress_of((#[trigger] rs[j]).2))
            == Some(rs[j].2)) {
        assert(b.subrange(0, b.len() as int) =~= b);
        lemma_decompact_of_records(b, 0, rs, 8192, Set::empty());
        lemma_decompact_from_dom(b, 0, 8192, Set::empty());
        lemma_decompact_from_chunks(b, 0, 8192, Set::empty());
        let r = decompact_from(b, 0, 8192, Set::empty())->Ok_0;
        let t = r.1;
        let out = region_header_bytes(t) + r.0;
        lemma_row_lens(t, 1024);
        assert(out.len() == 8192 + r.0.len());
        // the rebuilt image's table re-parses to the placed entries
        lemma_reparse_words(t, r.0);
        lemma_reparse_entries(out, t, 1024);
        lemma_tbl_entries_props(t, 1024);
        lemma_entry_multisets(t, rs);
        let rec = rec_entries(t, rs);
        // the record-ordered entries are strictly ordered by location
        assert forall|m: int|
            0 <= m < rec.len() - 1 implies entry_key(#[trigger] rec[m]) < entry_key(
            rec[m + 1],
        ) by {
            assert(t.contains_key(rs[m].0 as int));
            assert(t[rs[m].0 as int].spec_size() >= 4096);
            assert(t[rs[m + 1].0 as int].spec_location() == t[rs[m].0 as int].spec_location()
                + t[rs[m].0 as int].spec_size());
        }
        assert forall|i: int, j: int| 0 <= i < j < rec.len() implies entry_key(#[trigger] rec[i])
            <= entry_key(#[trigger] rec[j]) by {
            lemma_increasing_chain(rec, i, j);
        }
        assert forall|i: int, j: int| 0 <= i < j < rec.len() implies entry_key(#[trigger] rec[i])
            != entry_key(#[trigger] rec[j]) by {
            lemma_increasing_chain(rec, i, j);
        }
        // the sorted table is exactly the record-ordered entries
        lemma_sort_by_loc_multiset(tbl_entries(t, 1024));
        lemma_sort_by_loc_sorted(tbl_entries(t, 1024));
        lemma_sorted_by_loc_unique(sort_by_loc(tbl_entries(t, 1024)), rec);
        assert(raw_entries(out, 1024) == tbl_entries(t, 1024));
        assert(region_table(out) == rec);
        // walking the rebuilt image re-reads the records
        assert forall|m: int| 0 <= m < r.0.len() implies #[trigger] out[8192 + m] == r.0[m] by {}
        lemma_compact_back(out, rec, rs, r.0, t, 0, 8192);
        assert(rs.skip(0) =~= rs);
        assert(compact_records_from(out, rec, 0, 8192) == Ok::<
            Seq<(u32, u32, Seq<u8>)>,
            CodecError,
        >(rs));
        lemma_compact_encodes(out, rec, 0, 8192);
        assert(compact_from(out, rec, 0, 8192) == Ok::<Seq<u8>, CodecError>(bin_encode(rs)));
        assert(out.len() >= 8192);
        assert(compact_spec(out) == Ok::<Seq<u8>, CodecError>(b));
        assert(compact_records(out) == Ok::<Seq<(u32, u32, Seq<u8>)>, CodecError>(rs));
    }
}


/// The codec-inversion facts a decompact run leaves on a serialized
/// stream are the per-payload facts of its records: combined with
/// [`lemma_decompact_then_compact`], an actual run of the decompact
/// pipeline discharges the laws' codec hypotheses.
pub proof fn lemma_inverts_on_encoded(rs: Seq<(u32, u32, Seq<u8>)>, b: Seq<u8>, off: int)
    requires
        0 <= off <= b.len(),
        b.subrange(off, b.len() as int) == bin_encode(rs),
        forall|j: int| 0 <= j < rs.len() ==> (#[trigger] rs[j]).2.len() <= u64::MAX,
        zlib_inverts_on_records(b, off),
    ensures
        forall|j: int|
            0 <= j < rs.len() ==> zlib_decompress_of(zlib_compress_of((#[trigger] rs[j]).2))
                == Some(rs[j].2),
    decreases rs.len(),
{
    if rs.len() > 0 {
        let suffix = b.subrange(off, b.len() as int);
        let r0 = rs[0];
        let hdr = bin_header_bytes(r0.0, r0.1, r0.2.len() as u64);
        let enc_rest = bin_encode(rs.skip(1));
        assert(suffix == hdr + r0.2 + enc_rest);
        let plen = r0.2.len() as int;
        assert(suffix.len() == 16 + plen + enc_rest.len());
        assert forall|k: int| 0 <= k < suffix.len() implies #[trigger] b[off + k] == suffix[k] by {}
        lemma_bin_header_round_trip(r0.0, r0.1, r0.2.len() as u64);
        assert forall|k: int| 0 <= k < 16 implies #[trigger] b[off + k] == hdr[k] by {
            assert(b[off + k] == suffix[k]);
            assert(suffix[k] == hdr[k]);
        }
        assert(b[off + 8] == hdr[8] && b[off + 9] == hdr[9] && b[off + 10] == hdr[10] && b[off
            + 11] == hdr[11] && b[off + 12] == hdr[12] && b[off + 13] == hdr[13] && b[off + 14]
            == hdr[14] && b[off + 15] == hdr[15]);
        assert(le64_at(b, off + 8) == le64_at(hdr, 8));
        let len = le64_at(b, off + 8);
        assert(len == plen);
        assert(off + 16 + len <= b.len());
        let payload = b.subrange(off + 16, off + 16 + len);
        assert forall|m: int| 0 <= m < plen implies #[trigger] payload[m] == r0.2[m] by {
            assert(b[off + (16 + m)] == suffix[16 + m]);
            assert(payload[m] == b[off + 16 + m]);
            assert(suffix[16 + m] == r0.2[m]);
        }
        assert(payload =~= r0.2);
        assert(zlib_decompress_of(zlib_compress_of(r0.2)) == Some(r0.2));
        let tail = b.subrange(off + 16 + len, b.len() as int);
        assert forall|m: int| 0 <= m < enc_rest.len() implies #[trigger] tail[m] == enc_rest[m] by {
            assert(b[off + (16 + plen + m)] == suffix[16 + plen + m]);
            assert(tail[m] == b[off + 16 + len + m]);
            assert(suffix[16 + plen + m] == enc_rest[m]);
        }
        assert(tail =~= enc_rest);
        assert(forall|j: int|
            0 <= j < rs.skip(1).len() ==> (#[trigger] rs.skip(1)[j]).2.len() <= u64::MAX);
        lemma_inverts_on_encoded(rs.skip(1), b, off + 16 + len);
        assert(forall|j: int| 1 <= j < rs.len() ==> #[trigger] rs[j] == rs.skip(1)[j - 1]);
    }
}

} // verus!







