//! Transcoder between the sector-aligned region container format and the
//! flat streaming bin format: `compact` decompresses every chunk of a region
//! into a stream of records, `decompact` recompresses a record stream into a
//! valid region image.

pub mod bin;
pub mod bytes;
pub mod chunk;
pub mod codec;
pub mod error;
pub mod laws;
pub mod pipeline;
pub mod region;
pub mod rpack;
