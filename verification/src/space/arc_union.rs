//! Circular arc unions on an identical supporting circle.

use vstd::prelude::*;

verus! {

/// Relation between two arcs on one supporting circle that were united.
#[derive(Clone, Copy, Debug, PartialEq, Eq, Structural)]
pub enum ArcUnionKind {
    Duplicate,
    Overlap,
    EndToEnd,
}

} // verus!
