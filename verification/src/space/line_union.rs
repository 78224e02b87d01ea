//! Unions of collinear finite line segments.

use vstd::prelude::*;

verus! {

/// Relation between two collinear segments that were united.
#[derive(Debug, Clone, Copy, PartialEq, Eq, Structural)]
pub enum LineUnionKind {
    Duplicate,
    Overlap,
    EndToEnd,
}

} // verus!
