//! The error taxonomy shared by every codec and pipeline of the crate.

use vstd::prelude::*;

verus! {

/// Why a parse, a codec step or a pipeline run failed.
#[derive(Clone, Copy, Debug, PartialEq, Eq, Structural)]
pub enum CodecError {
    /// A fixed-size structure or a length-declared payload was cut short.
    UnexpectedEof,
    /// A compression-type byte outside the recognized set.
    UnknownCompression,
    /// A region whose descriptor table or chunk ranges are inconsistent
    /// with the bytes that carry them.
    MalformedRegion,
    /// A bin stream with a duplicate position or a position of 1024 or more.
    MalformedBin,
    /// A chunk descriptor whose location or size falls outside what the
    /// packed 24/8 layout can carry.
    ContractViolation,
    /// A decoder rejected its input.
    CompressionError,
}

impl CodecError {
    /// A short human-readable name for the error.
    pub fn describe(&self) -> (r: &'static str)
    {
        match self {
            CodecError::UnexpectedEof => "unexpected end of input",
            CodecError::UnknownCompression => "unknown compression type",
            CodecError::MalformedRegion => "malformed region",
            CodecError::MalformedBin => "malformed bin stream",
            CodecError::ContractViolation => "chunk descriptor out of range",
            CodecError::CompressionError => "compression codec failure",
        }
    }
}

/// The byte view of a fallible byte-vector result, for stating contracts.
pub open spec fn res_bytes(r: Result<Vec<u8>, CodecError>) -> Result<Seq<u8>, CodecError> {
    match r {
        Ok(v) => Ok(v@),
        Err(e) => Err(e),
    }
}

} // verus!
