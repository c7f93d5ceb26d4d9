//! An in-memory R-tree: a height-balanced spatial index over axis-aligned
//! rectangles in k-dimensional space, with fixed-point integer coordinates.
//!
//! Each entry associates a rectangle (its minimum bounding region) with an
//! opaque payload.  The tree supports incremental insertion and three
//! downward queries: point containment, region intersection, and region
//! containment.  Every structural invariant of the tree — parent/child
//! containment, parent links, fanout bounds, and uniform leaf depth — is
//! stated as a specification and proved to hold after every operation.

pub mod geometry;
pub mod rtree;
