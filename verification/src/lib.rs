//! Reductions and moment statistics over strided n-dimensional arrays:
//! whole-array and per-axis sum, product, mean, variance, standard
//! deviation, cumulative product, and iterated forward differences.

use vstd::prelude::*;

pub mod element;
pub mod shape;
pub mod array;
pub mod reduce;
pub mod moments;
pub mod cumulative;
pub mod diffs;
pub mod laws;
pub mod decompose;

verus! {

/// The ways an operation can fail: an axis index at or past the rank,
/// a delta-degrees-of-freedom outside `[0, n]`, a difference order too
/// large for the axis extent, or an element count that the element type
/// cannot represent.
#[derive(Clone, Copy, PartialEq, Eq, Structural, Debug)]
pub enum NumericError {
    AxisOutOfBounds,
    InvalidDdof,
    InsufficientLength,
    ConversionFailed,
}

} // verus!
