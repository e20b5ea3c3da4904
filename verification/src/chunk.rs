//! The framed chunk payload: a big-endian length prefix, a compression-type
//! byte, compressed data and sector padding.

use vstd::prelude::*;
use crate::bytes::be32_at;
use crate::codec::{gzip_decompress, gzip_decompress_of, zlib_decompress, zlib_decompress_of};
use crate::error::CodecError;

verus! {

/// How a chunk's data bytes are compressed. The byte values on disk are
/// GZip = 1, Zlib = 2, Uncompressed = 3; byte 4 is reserved and every other
/// value is rejected as unknown.
#[derive(Clone, Copy, Debug, PartialEq, Eq, Structural)]
pub enum CompressionType {
    GZip,
    Zlib,
    Uncompressed,
}

/// The compression type a disk byte denotes, where it denotes one.
pub open spec fn compression_type_of_byte(b: u8) -> Option<CompressionType> {
    if b == 1 {
        Some(CompressionType::GZip)
    } else if b == 2 {
        Some(CompressionType::Zlib)
    } else if b == 3 {
        Some(CompressionType::Uncompressed)
    } else {
        None
    }
}

impl CompressionType {
    /// The byte that denotes this compression type on disk.
    pub open spec fn spec_byte(self) -> u8 {
        match self {
            CompressionType::GZip => 1,
            CompressionType::Zlib => 2,
            CompressionType::Uncompressed => 3,
        }
    }

    /// Reads a compression type from its disk byte.
    pub fn from_byte(b: u8) -> (r: Option<CompressionType>)
        ensures
            r == compression_type_of_byte(b),
    {
        match b {
            1 => Some(CompressionType::GZip),
            2 => Some(CompressionType::Zlib),
            3 => Some(CompressionType::Uncompressed),
            _ => None,
        }
    }

    /// Writes the disk byte of this compression type.
    pub fn to_byte(&self) -> (r: u8)
        ensures
            r == self.spec_byte(),
            compression_type_of_byte(r) == Some(*self),
    {
        match self {
            CompressionType::GZip => 1,
            CompressionType::Zlib => 2,
            CompressionType::Uncompressed => 3,
        }
    }
}

/// A chunk payload as read out of its sector-padded byte range: the declared
/// length (which counts the compression-type byte and the data bytes), the
/// compression type, and every byte after the five-byte prefix, padding
/// included.
#[derive(Debug)]
pub struct ChunkData {
    pub length: u32,
    pub compression_type: CompressionType,
    pub data: Vec<u8>,
}

/// What decompressing the sector-padded byte range of a chunk yields.
///
/// The range carries a 4-byte big-endian `length`, one compression-type
/// byte, `length - 1` data bytes and zero padding. Only the declared data
/// bytes reach the decoder; short structures fail with `UnexpectedEof`, an
/// unrecognized compression byte with `UnknownCompression`, and a rejected
/// stream with `CompressionError`.
pub open spec fn sector_decompress(sector: Seq<u8>) -> Result<Seq<u8>, CodecError> {
    if sector.len() < 5 {
        Err(CodecError::UnexpectedEof)
    } else {
        let length = be32_at(sector, 0);
        if length == 0 {
            Err(CodecError::UnexpectedEof)
        } else {
            match compression_type_of_byte(sector[4]) {
                None => Err(CodecError::UnknownCompression),
                Some(ct) => {
                    if length - 1 > sector.len() - 5 {
                        Err(CodecError::UnexpectedEof)
                    } else {
                        let body = sector.subrange(5, 5 + (length - 1));
                        match ct {
                            CompressionType::GZip => match gzip_decompress_of(body) {
                                Some(out) => Ok(out),
                                None => Err(CodecError::CompressionError),
                            },
                            CompressionType::Zlib => match zlib_decompress_of(body) {
                                Some(out) => Ok(out),
                                None => Err(CodecError::CompressionError),
                            },
                            CompressionType::Uncompressed => Ok(body),
                        }
                    }
                },
            }
        }
    }
}

impl ChunkData {
    /// The structure is sound: the declared length counts at least the
    /// compression-type byte.
    pub open spec fn wf(self) -> bool {
        self.length >= 1
    }

    /// The declared length field, counting the compression-type byte.
    pub open spec fn spec_raw_length(self) -> u32 {
        self.length
    }

    /// The data bytes the declared length covers, without padding.
    pub open spec fn payload_bytes(self) -> Seq<u8> {
        self.data@.take(self.length - 1)
    }

    /// What decompressing this chunk yields: the declared data bytes run
    /// through the codec the compression type names.
    pub open spec fn decompress_spec(self) -> Result<Seq<u8>, CodecError> {
        if self.length - 1 > self.data@.len() {
            Err(CodecError::UnexpectedEof)
        } else {
            match self.compression_type {
                CompressionType::GZip => match gzip_decompress_of(self.payload_bytes()) {
                    Some(out) => Ok(out),
                    None => Err(CodecError::CompressionError),
                },
                CompressionType::Zlib => match zlib_decompress_of(self.payload_bytes()) {
                    Some(out) => Ok(out),
                    None => Err(CodecError::CompressionError),
                },
                CompressionType::Uncompressed => Ok(self.payload_bytes()),
            }
        }
    }

    /// Reads the five-byte prefix of a sector-padded chunk byte range and
    /// takes the rest as the data bytes.
    pub fn parse(sector: &Vec<u8>) -> (r: Result<ChunkData, CodecError>)
        ensures
            match r {
                Ok(cd) => {
                    &&& sector@.len() >= 5
                    &&& cd.wf()
                    &&& cd.spec_raw_length() == be32_at(sector@, 0)
                    &&& be32_at(sector@, 0) >= 1
                    &&& compression_type_of_byte(sector@[4]) == Some(cd.compression_type)
                    &&& cd.data@ == sector@.skip(5)
                },
                Err(CodecError::UnexpectedEof) => sector@.len() < 5 || be32_at(sector@, 0)
                    == 0,
                Err(CodecError::UnknownCompression) => sector@.len() >= 5 && be32_at(
                    sector@,
                    0,
                ) >= 1 && compression_type_of_byte(sector@[4]) is None,
                Err(_) => false,
            },
    {
        if sector.len() < 5 {
            return Err(CodecError::UnexpectedEof);
        }
        let length = crate::bytes::read_be32(sector, 0);
        if length == 0 {
            return Err(CodecError::UnexpectedEof);
        }
        let compression_type = match CompressionType::from_byte(sector[4]) {
            Some(ct) => ct,
            None => {
                return Err(CodecError::UnknownCompression);
            },
        };
        let data = crate::bytes::copy_range(sector, 5, sector.len());
        proof {
            assert(data@ =~= sector@.skip(5));
        }
        Ok(ChunkData { length, compression_type, data })
    }

    /// The count of data bytes the declared length covers (the length field
    /// less the compression-type byte).
    pub fn length(&self) -> (r: usize)
        requires
            self.wf(),
        ensures
            r == self.spec_raw_length() - 1,
    {
        (self.length - 1) as usize
    }

    /// Runs the declared data bytes through the codec the compression type
    /// names and returns the decompressed bytes.
    pub fn decompress(&self) -> (r: Result<Vec<u8>, CodecError>)
        requires
            self.wf(),
        ensures
            crate::error::res_bytes(r) == self.decompress_spec(),
    {
        let declared = self.length();
        if declared > self.data.len() {
            return Err(CodecError::UnexpectedEof);
        }
        let body = crate::bytes::copy_range(&self.data, 0, declared);
        proof {
            assert(body@ =~= self.payload_bytes());
        }
        match self.compression_type {
            CompressionType::GZip => match gzip_decompress(&body) {
                Some(out) => Ok(out),
                None => Err(CodecError::CompressionError),
            },
            CompressionType::Zlib => match zlib_decompress(&body) {
                Some(out) => Ok(out),
                None => Err(CodecError::CompressionError),
            },
            CompressionType::Uncompressed => Ok(body),
        }
    }
}

/// Parsing a sector and decompressing the parsed chunk agrees with
/// [`sector_decompress`] on that sector.
pub proof fn lemma_parse_decompress(sector: Seq<u8>, cd: ChunkData)
    requires
        sector.len() >= 5,
        cd.wf(),
        cd.spec_raw_length() == be32_at(sector, 0),
        compression_type_of_byte(sector[4]) == Some(cd.compression_type),
        cd.data@ == sector.skip(5),
    ensures
        cd.decompress_spec() == sector_decompress(sector),
{
    let length = be32_at(sector, 0);
    if length - 1 > sector.len() - 5 {
    } else {
        assert(cd.payload_bytes() =~= sector.subrange(5, 5 + (length - 1)));
    }
}

} // verus!
