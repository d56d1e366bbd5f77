//! The errors of the tile operations.
use vstd::prelude::*;

verus! {

/// Why an operation on tiles was refused.
#[derive(Clone, Copy, Debug, PartialEq, Eq, Structural)]
pub enum TileError {
    /// The tile name at `index` is not of the form `<x>,<z>.<ext>`.
    Format { index: usize },
    /// The input breaks a stated expectation: an empty tile list, a tile size
    /// of zero, or tiles of differing dimensions.
    Precondition,
    /// The result would need a sector outside the 32-bit range or a pixel
    /// buffer larger than an allocation may be.
    Capacity,
}

} // verus!
