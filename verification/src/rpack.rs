//! The rpack container: a 32-byte header naming an outer codec, then an
//! outer-compressed stream of framed records.

use vstd::prelude::*;
use crate::bytes::{be32_at, le32_at, le64_at, zeros};
use crate::codec::{
    lz4_compress, lz4_compress_of, lz4_decompress, lz4_decompress_of, zstd_compress,
    zstd_compress_of, zstd_decompress, zstd_decompress_of,
};
use crate::error::CodecError;

verus! {

/// The outer codec wrapped around an rpack body. The byte values on disk
/// are Uncompressed = 0, Zstd = 1, LZ4 = 2; every other value is rejected
/// as unknown.
#[derive(Clone, Copy, Debug, PartialEq, Eq, Structural)]
pub enum CompactCompression {
    Zstd,
    LZ4,
    Uncompressed,
}

/// The outer codec a disk byte denotes, where it denotes one.
pub open spec fn compact_compression_of_byte(b: u8) -> Option<CompactCompression> {
    if b == 0 {
        Some(CompactCompression::Uncompressed)
    } else if b == 1 {
        Some(CompactCompression::Zstd)
    } else if b == 2 {
        Some(CompactCompression::LZ4)
    } else {
        None
    }
}

impl CompactCompression {
    /// The byte that denotes this codec on disk.
    pub open spec fn spec_byte(self) -> u8 {
        match self {
            CompactCompression::Uncompressed => 0,
            CompactCompression::Zstd => 1,
            CompactCompression::LZ4 => 2,
        }
    }

    /// What encoding a byte sequence through this codec yields.
    pub open spec fn compress_spec(self, data: Seq<u8>) -> Seq<u8> {
        match self {
            CompactCompression::Uncompressed => data,
            CompactCompression::Zstd => zstd_compress_of(data),
            CompactCompression::LZ4 => lz4_compress_of(data),
        }
    }

    /// What decoding a byte sequence through this codec yields, or `None`
    /// where the codec rejects it.
    pub open spec fn decompress_spec(self, data: Seq<u8>) -> Option<Seq<u8>> {
        match self {
            CompactCompression::Uncompressed => Some(data),
            CompactCompression::Zstd => zstd_decompress_of(data),
            CompactCompression::LZ4 => lz4_decompress_of(data),
        }
    }

    /// Reads an outer codec from its disk byte.
    pub fn from_byte(b: u8) -> (r: Option<CompactCompression>)
        ensures
            r == compact_compression_of_byte(b),
    {
        match b {
            0 => Some(CompactCompression::Uncompressed),
            1 => Some(CompactCompression::Zstd),
            2 => Some(CompactCompression::LZ4),
            _ => None,
        }
    }

    /// Writes the disk byte of this outer codec.
    pub fn to_byte(&self) -> (r: u8)
        ensures
            r == self.spec_byte(),
            compact_compression_of_byte(r) == Some(*self),
    {
        match self {
            CompactCompression::Uncompressed => 0,
            CompactCompression::Zstd => 1,
            CompactCompression::LZ4 => 2,
        }
    }

    /// Encodes a byte sequence through this codec; decoding the result
    /// with the same codec yields the input back.
    pub fn compress(&self, data: &Vec<u8>) -> (r: Vec<u8>)
        ensures
            r@ == self.compress_spec(data@),
            self.decompress_spec(r@) == Some(data@),
    {
        match self {
            CompactCompression::Uncompressed => {
                let r = crate::bytes::copy_range(data, 0, data.len());
                proof {
                    assert(r@ =~= data@);
                }
                r
            },
            CompactCompression::Zstd => zstd_compress(data),
            CompactCompression::LZ4 => lz4_compress(data),
        }
    }

    /// Decodes a byte sequence through this codec; a stream the codec
    /// rejects fails with `CompressionError`.
    pub fn decompress(&self, data: &Vec<u8>) -> (r: Result<Vec<u8>, CodecError>)
        ensures
            match r {
                Ok(v) => self.decompress_spec(data@) == Some(v@),
                Err(e) => e == CodecError::CompressionError && self.decompress_spec(
                    data@,
                ) is None,
            },
    {
        match self {
            CompactCompression::Uncompressed => {
                let r = crate::bytes::copy_range(data, 0, data.len());
                proof {
                    assert(r@ =~= data@);
                }
                Ok(r)
            },
            CompactCompression::Zstd => match zstd_decompress(data) {
                Some(v) => Ok(v),
                None => Err(CodecError::CompressionError),
            },
            CompactCompression::LZ4 => match lz4_decompress(data) {
                Some(v) => Ok(v),
                None => Err(CodecError::CompressionError),
            },
        }
    }
}

/// The 32-byte prelude of an rpack container: the outer codec's byte, then
/// 31 reserved bytes written as zero and ignored on read.
#[derive(Debug, Clone, Copy, PartialEq, Eq, Structural)]
pub struct RpackHeader {
    pub compression_type: CompactCompression,
}

/// The 32 bytes an rpack header serializes to.
pub open spec fn rpack_header_bytes(ct: CompactCompression) -> Seq<u8> {
    seq![ct.spec_byte()] + zeros(31)
}

impl RpackHeader {
    /// Reads the 32-byte header at the front of `data`: the first byte
    /// names the outer codec, the reserved bytes must be present and are
    /// ignored.
    pub fn parse(data: &Vec<u8>) -> (r: Result<RpackHeader, CodecError>)
        ensures
            match r {
                Ok(h) => data@.len() >= 32 && compact_compression_of_byte(data@[0]) == Some(
                    h.compression_type,
                ),
                Err(CodecError::UnexpectedEof) => data@.len() < 32,
                Err(CodecError::UnknownCompression) => data@.len() >= 32
                    && compact_compression_of_byte(data@[0]) is None,
                Err(_) => false,
            },
    {
        if data.len() < 32 {
            return Err(CodecError::UnexpectedEof);
        }
        match CompactCompression::from_byte(data[0]) {
            Some(ct) => Ok(RpackHeader { compression_type: ct }),
            None => Err(CodecError::UnknownCompression),
        }
    }

    /// Appends this header's 32 bytes: the codec byte, then 31 zeros.
    pub fn write(&self, out: &mut Vec<u8>)
        ensures
            final(out)@ == old(out)@ + rpack_header_bytes(self.compression_type),
    {
        let b = self.compression_type.to_byte();
        out.push(b);
        crate::bytes::push_zeros(out, 31);
        proof {
            assert(out@ =~= old(out)@ + rpack_header_bytes(self.compression_type));
        }
    }
}

/// A serialized rpack header is 32 bytes and parses back to the codec it
/// was written for.
pub proof fn lemma_rpack_header_round_trip(ct: CompactCompression)
    ensures
        rpack_header_bytes(ct).len() == 32,
        compact_compression_of_byte(rpack_header_bytes(ct)[0]) == Some(ct),
{
}

/// The 16-byte header in front of each rpack record's payload, framed as a
/// bin record header.
#[derive(Clone, Copy, Debug, PartialEq, Eq, Structural)]
pub struct RpackChunkHeader {
    /// The chunk's position within its region, `0 ..= 1023`.
    pub pos: u32,
    /// The timestamp carried verbatim.
    pub timestamp: u32,
    /// The count of payload bytes that follow.
    pub length: u64,
}

/// What reading one record at byte `off` of a decoded rpack body yields:
/// `None` at a clean end, an error on a cut-short header or payload, and
/// otherwise the record header with its payload bytes.
pub open spec fn rpack_step(body: Seq<u8>, off: int) -> Result<
    Option<(RpackChunkHeader, Seq<u8>)>,
    CodecError,
> {
    if off >= body.len() {
        Ok(None)
    } else if off + 16 > body.len() {
        Err(CodecError::UnexpectedEof)
    } else {
        let h = RpackChunkHeader {
            pos: le32_at(body, off),
            timestamp: be32_at(body, off + 4),
            length: le64_at(body, off + 8),
        };
        if off + 16 + h.length > body.len() {
            Err(CodecError::UnexpectedEof)
        } else {
            Ok(Some((h, body.subrange(off + 16, off + 16 + h.length))))
        }
    }
}

/// The view of one record-read outcome, with the payload as a sequence.
pub open spec fn rpack_step_view(r: Result<Option<(RpackChunkHeader, Vec<u8>)>, CodecError>) -> Result<
    Option<(RpackChunkHeader, Seq<u8>)>,
    CodecError,
> {
    match r {
        Ok(None) => Ok(None),
        Ok(Some((h, v))) => Ok(Some((h, v@))),
        Err(e) => Err(e),
    }
}

/// A reader over an rpack container: the parsed header, the body decoded
/// through the outer codec, and the byte offset of the next record.
#[derive(Debug)]
pub struct RpackReader {
    pub header: RpackHeader,
    pub body: Vec<u8>,
    pub offset: usize,
}

impl RpackReader {
    /// The read offset stays within the decoded body.
    pub open spec fn wf(self) -> bool {
        self.offset <= self.body@.len()
    }

    /// Opens an rpack container: parses the 32-byte header and decodes
    /// everything after it through the outer codec the header names.
    pub fn from_reader(data: Vec<u8>) -> (r: Result<RpackReader, CodecError>)
        ensures
            match r {
                Ok(rr) => {
                    &&& data@.len() >= 32
                    &&& compact_compression_of_byte(data@[0]) == Some(
                        rr.header.compression_type,
                    )
                    &&& rr.header.compression_type.decompress_spec(
                        data@.subrange(32, data@.len() as int),
                    ) == Some(rr.body@)
                    &&& rr.offset == 0
                    &&& rr.wf()
                },
                Err(CodecError::UnexpectedEof) => data@.len() < 32,
                Err(CodecError::UnknownCompression) => data@.len() >= 32
                    && compact_compression_of_byte(data@[0]) is None,
                Err(CodecError::CompressionError) => data@.len() >= 32
                    && compact_compression_of_byte(data@[0]) is Some
                    && compact_compression_of_byte(data@[0])->Some_0.decompress_spec(
                    data@.subrange(32, data@.len() as int),
                ) is None,
                Err(_) => false,
            },
    {
        let header = match RpackHeader::parse(&data) {
            Ok(h) => h,
            Err(e) => {
                return Err(e);
            },
        };
        let rest = crate::bytes::copy_range(&data, 32, data.len());
        let body = match header.compression_type.decompress(&rest) {
            Ok(b) => b,
            Err(e) => {
                return Err(e);
            },
        };
        Ok(RpackReader { header, body, offset: 0 })
    }

    /// Reads the next record of the decoded body: `None` at a clean end,
    /// an error on a cut-short record. On an error the reader is left as
    /// it was.
    pub fn read_chunk(&mut self) -> (r: Result<Option<(RpackChunkHeader, Vec<u8>)>, CodecError>)
        requires
            old(self).wf(),
        ensures
            final(self).wf(),
            final(self).header == old(self).header,
            final(self).body == old(self).body,
            rpack_step_view(r) == rpack_step(old(self).body@, old(self).offset as int),
            match rpack_step(old(self).body@, old(self).offset as int) {
                Ok(Some((h, _))) => final(self).offset == old(self).offset + 16 + h.length,
                _ => *final(self) == *old(self),
            },
    {
        let blen = self.body.len();
        if self.offset >= blen {
            return Ok(None);
        }
        if blen - self.offset < 16 {
            return Err(CodecError::UnexpectedEof);
        }
        let pos = crate::bytes::read_le32(&self.body, self.offset);
        let timestamp = crate::bytes::read_be32(&self.body, self.offset + 4);
        let length = crate::bytes::read_le64(&self.body, self.offset + 8);
        if length > (blen - self.offset - 16) as u64 {
            return Err(CodecError::UnexpectedEof);
        }
        let h = RpackChunkHeader { pos, timestamp, length };
        proof {
            assert(length <= usize::MAX as u64);
        }
        let start = self.offset + 16;
        let end = start + length as usize;
        let payload = crate::bytes::copy_range(&self.body, start, end);
        self.offset = end;
        Ok(Some((h, payload)))
    }
}

} // verus!
