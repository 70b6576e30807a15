use vstd::prelude::*;

pub mod catalog;
pub mod chunk;
pub mod mosaic;
pub mod palette;
pub mod pixel;

verus! {

/// Failures that abort the mosaic pipeline.
///
/// `InvalidChunkSize` comes out of chunk-size negotiation when no block size
/// at or above the starting guess divides both image dimensions.
/// `EmptyCatalog` comes out of palette matching when there is no tile at all
/// to match against.
#[derive(Clone, Copy, PartialEq, Eq, Structural, Debug)]
pub enum MosaicError {
    InvalidChunkSize,
    EmptyCatalog,
}

} // verus!
