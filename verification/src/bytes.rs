//! Endian-typed integer views over byte sequences and the sector-padding
//! helper shared by the region and bin codecs.

use vstd::prelude::*;

verus! {

/// Big-endian composition of four bytes into a 32-bit integer.
pub open spec fn be32_of(b0: u8, b1: u8, b2: u8, b3: u8) -> u32 {
    ((b0 as u32) << 24) | ((b1 as u32) << 16) | ((b2 as u32) << 8) | (b3 as u32)
}

/// The big-endian 32-bit integer starting at byte `i` of `s`.
pub open spec fn be32_at(s: Seq<u8>, i: int) -> u32
    recommends
        0 <= i,
        i + 4 <= s.len(),
{
    be32_of(s[i], s[i + 1], s[i + 2], s[i + 3])
}

/// The four big-endian bytes of `x`.
pub open spec fn be32_bytes(x: u32) -> Seq<u8> {
    seq![
        (x >> 24) as u8,
        ((x >> 16) & 0xff) as u8,
        ((x >> 8) & 0xff) as u8,
        (x & 0xff) as u8,
    ]
}

/// Little-endian composition of four bytes into a 32-bit integer.
pub open spec fn le32_of(b0: u8, b1: u8, b2: u8, b3: u8) -> u32 {
    (b0 as u32) | ((b1 as u32) << 8) | ((b2 as u32) << 16) | ((b3 as u32) << 24)
}

/// The little-endian 32-bit integer starting at byte `i` of `s`.
pub open spec fn le32_at(s: Seq<u8>, i: int) -> u32
    recommends
        0 <= i,
        i + 4 <= s.len(),
{
    le32_of(s[i], s[i + 1], s[i + 2], s[i + 3])
}

/// The four little-endian bytes of `x`.
pub open spec fn le32_bytes(x: u32) -> Seq<u8> {
    seq![
        (x & 0xff) as u8,
        ((x >> 8) & 0xff) as u8,
        ((x >> 16) & 0xff) as u8,
        ((x >> 24) & 0xff) as u8,
    ]
}

/// The little-endian 64-bit integer starting at byte `i` of `s`.
pub open spec fn le64_at(s: Seq<u8>, i: int) -> u64
    recommends
        0 <= i,
        i + 8 <= s.len(),
{
    (s[i] as u64) | ((s[i + 1] as u64) << 8) | ((s[i + 2] as u64) << 16)
        | ((s[i + 3] as u64) << 24) | ((s[i + 4] as u64) << 32) | ((s[i + 5] as u64) << 40)
        | ((s[i + 6] as u64) << 48) | ((s[i + 7] as u64) << 56)
}

/// The eight little-endian bytes of `x`.
pub open spec fn le64_bytes(x: u64) -> Seq<u8> {
    seq![
        (x & 0xff) as u8,
        ((x >> 8) & 0xff) as u8,
        ((x >> 16) & 0xff) as u8,
        ((x >> 24) & 0xff) as u8,
        ((x >> 32) & 0xff) as u8,
        ((x >> 40) & 0xff) as u8,
        ((x >> 48) & 0xff) as u8,
        ((x >> 56) & 0xff) as u8,
    ]
}

/// A run of `n` zero bytes.
pub open spec fn zeros(n: int) -> Seq<u8> {
    Seq::new(n as nat, |i: int| 0u8)
}

/// Bytes of padding that bring a byte count `c` up to the next 4096-byte
/// sector boundary (zero when `c` already sits on one).
pub open spec fn pad_of(c: int) -> int {
    if c % 4096 == 0 {
        0
    } else {
        4096 - c % 4096
    }
}

/// Reading back the four bytes written for `x` yields `x`.
pub proof fn lemma_be32_round_trip(x: u32)
    ensures
        be32_at(be32_bytes(x), 0) == x,
{
    assert(be32_of(
        (x >> 24) as u8,
        ((x >> 16) & 0xff) as u8,
        ((x >> 8) & 0xff) as u8,
        (x & 0xff) as u8,
    ) == x) by (bit_vector);
}

/// Reading back the four bytes written for `x` yields `x`.
pub proof fn lemma_le32_round_trip(x: u32)
    ensures
        le32_at(le32_bytes(x), 0) == x,
{
    assert(le32_of(
        (x & 0xff) as u8,
        ((x >> 8) & 0xff) as u8,
        ((x >> 16) & 0xff) as u8,
        ((x >> 24) & 0xff) as u8,
    ) == x) by (bit_vector);
}

/// Reading back the eight bytes written for `x` yields `x`.
pub proof fn lemma_le64_round_trip(x: u64)
    ensures
        le64_at(le64_bytes(x), 0) == x,
{
    let b = le64_bytes(x);
    assert(((x & 0xff) as u8 as u64) | (((x >> 8) & 0xff) as u8 as u64) << 8
        | (((x >> 16) & 0xff) as u8 as u64) << 16 | (((x >> 24) & 0xff) as u8 as u64) << 24
        | (((x >> 32) & 0xff) as u8 as u64) << 32 | (((x >> 40) & 0xff) as u8 as u64) << 40
        | (((x >> 48) & 0xff) as u8 as u64) << 48 | (((x >> 56) & 0xff) as u8 as u64) << 56
        == x) by (bit_vector);
}

/// Reads the big-endian 32-bit integer at `off`.
pub fn read_be32(v: &Vec<u8>, off: usize) -> (r: u32)
    requires
        off + 4 <= v.len(),
    ensures
        r == be32_at(v@, off as int),
{
    ((v[off] as u32) << 24) | ((v[off + 1] as u32) << 16) | ((v[off + 2] as u32) << 8)
        | (v[off + 3] as u32)
}

/// Reads the little-endian 32-bit integer at `off`.
pub fn read_le32(v: &Vec<u8>, off: usize) -> (r: u32)
    requires
        off + 4 <= v.len(),
    ensures
        r == le32_at(v@, off as int),
{
    (v[off] as u32) | ((v[off + 1] as u32) << 8) | ((v[off + 2] as u32) << 16)
        | ((v[off + 3] as u32) << 24)
}

/// Reads the little-endian 64-bit integer at `off`.
pub fn read_le64(v: &Vec<u8>, off: usize) -> (r: u64)
    requires
        off + 8 <= v.len(),
    ensures
        r == le64_at(v@, off as int),
{
    (v[off] as u64) | ((v[off + 1] as u64) << 8) | ((v[off + 2] as u64) << 16)
        | ((v[off + 3] as u64) << 24) | ((v[off + 4] as u64) << 32)
        | ((v[off + 5] as u64) << 40) | ((v[off + 6] as u64) << 48)
        | ((v[off + 7] as u64) << 56)
}

/// Appends the big-endian bytes of `x`.
pub fn push_be32(out: &mut Vec<u8>, x: u32)
    ensures
        final(out)@ == old(out)@ + be32_bytes(x),
{
    out.push((x >> 24) as u8);
    out.push(((x >> 16) & 0xff) as u8);
    out.push(((x >> 8) & 0xff) as u8);
    out.push((x & 0xff) as u8);
    proof {
        assert(out@ =~= old(out)@ + be32_bytes(x));
    }
}

/// Appends the little-endian bytes of `x`.
pub fn push_le32(out: &mut Vec<u8>, x: u32)
    ensures
        final(out)@ == old(out)@ + le32_bytes(x),
{
    out.push((x & 0xff) as u8);
    out.push(((x >> 8) & 0xff) as u8);
    out.push(((x >> 16) & 0xff) as u8);
    out.push(((x >> 24) & 0xff) as u8);
    proof {
        assert(out@ =~= old(out)@ + le32_bytes(x));
    }
}

/// Appends the little-endian bytes of `x`.
pub fn push_le64(out: &mut Vec<u8>, x: u64)
    ensures
        final(out)@ == old(out)@ + le64_bytes(x),
{
    out.push((x & 0xff) as u8);
    out.push(((x >> 8) & 0xff) as u8);
    out.push(((x >> 16) & 0xff) as u8);
    out.push(((x >> 24) & 0xff) as u8);
    out.push(((x >> 32) & 0xff) as u8);
    out.push(((x >> 40) & 0xff) as u8);
    out.push(((x >> 48) & 0xff) as u8);
    out.push(((x >> 56) & 0xff) as u8);
    proof {
        assert(out@ =~= old(out)@ + le64_bytes(x));
    }
}

/// Appends `n` zero bytes.
pub fn push_zeros(out: &mut Vec<u8>, n: usize)
    ensures
        final(out)@ == old(out)@ + zeros(n as int),
{
    let mut i: usize = 0;
    while i < n
        invariant
            i <= n,
            out@ == old(out)@ + zeros(i as int),
        decreases n - i,
    {
        out.push(0u8);
        i = i + 1;
        proof {
            assert(out@ =~= old(out)@ + zeros(i as int));
        }
    }
}

/// Appends every byte of `more`.
pub fn push_bytes(out: &mut Vec<u8>, more: &Vec<u8>)
    ensures
        final(out)@ == old(out)@ + more@,
{
    out.extend_from_slice(more.as_slice());
    proof {
        assert(out@ =~= old(out)@ + more@);
    }
}

/// The padding needed to carry a byte count `c` to the next sector boundary.
pub fn pad_len(c: u64) -> (r: u64)
    requires
        c + 4096 <= u64::MAX,
    ensures
        r == pad_of(c as int),
        r < 4096,
        (c + r) % 4096 == 0,
{
    let m: u64 = c % 4096;
    if m == 0 {
        0
    } else {
        4096 - m
    }
}

/// Copies `v[start..end]` into a fresh vector.
pub fn copy_range(v: &Vec<u8>, start: usize, end: usize) -> (r: Vec<u8>)
    requires
        start <= end,
        end <= v.len(),
    ensures
        r@ == v@.subrange(start as int, end as int),
{
    let mut out: Vec<u8> = Vec::new();
    let mut i: usize = start;
    while i < end
        invariant
            start <= i <= end,
            end <= v.len(),
            out@ == v@.subrange(start as int, i as int),
        decreases end - i,
    {
        out.push(v[i]);
        i = i + 1;
        proof {
            assert(out@ =~= v@.subrange(start as int, i as int));
        }
    }
    out
}

} // verus!
