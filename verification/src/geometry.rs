//! Geometric primitives shared by the tree: points, axis-aligned regions,
//! and the error type for dimension mismatches.
//!
//! Coordinates are plain `i64` values.  The library attaches no unit to
//! them: a caller indexing fractional data picks a fixed-point scale (say,
//! hundredths) and supplies scaled coordinates.  Containment, intersection
//! and union are scale-invariant, so queries are unaffected by the choice.

use vstd::prelude::*;

pub mod point;
pub mod region;

pub use point::Point;
pub use region::Region;

verus! {

/// Error produced by geometric operations and surfaced through the tree.
///
/// `UnmatchedDimensions(a, b)` reports two shapes of differing dimension;
/// `UnsupportedOperation` is reserved for operand pairs on which an
/// operation is not defined.
#[derive(Clone, Copy, Debug, PartialEq, Eq, Structural)]
pub enum ShapelikeError {
    UnsupportedOperation,
    UnmatchedDimensions(usize, usize),
}

/// Checks that two shapes' dimensions agree, reporting them in the error
/// when they do not.
pub fn check_dimensions_match(d1: usize, d2: usize) -> (r: Result<(), ShapelikeError>)
    ensures
        d1 == d2 ==> r == Ok::<(), ShapelikeError>(()),
        d1 != d2 ==> r == Err::<(), ShapelikeError>(ShapelikeError::UnmatchedDimensions(d1, d2)),
{
    if d1 != d2 {
        Err(ShapelikeError::UnmatchedDimensions(d1, d2))
    } else {
        Ok(())
    }
}

} // verus!
