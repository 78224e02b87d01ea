//! A plane curve together with the plane it lives on.
//!
//! The frame says where in space the curve's two coordinates point; the
//! shape answers every question about closure and extent. Keeping the pair
//! together lets the plane layer stay two-dimensional.

use vstd::prelude::*;
use crate::geom2d::{CurveShape, Extent};

verus! {

/// A curve in space, expressed in the coordinates of the plane it lies on.
///
/// The frame type is whatever the caller uses for a plane; nothing here
/// reads it, which is the point: the frame changes where the curve is, never
/// what kind of curve it is.
#[derive(Debug, Clone)]
pub struct PlanarCurve<P> {
    /// The frame the curve's coordinates are read in.
    pub plane: P,
    /// The shape, in that frame.
    pub curve: CurveShape,
}

impl<P> PlanarCurve<P> {
    /// A curve on a plane.
    pub fn new(plane: P, curve: CurveShape) -> (made: Self)
        ensures
            made.plane == plane,
            made.curve == curve,
    {
        PlanarCurve { plane, curve }
    }

    /// How far the curve's parameter runs. Delegates to the shape: a frame
    /// does not bound anything.
    pub fn extent(&self) -> (extent: Extent)
        ensures
            extent == self.curve.spec_extent(),
    {
        self.curve.extent()
    }

    /// Whether the curve returns to where it started.
    pub fn is_closed(&self) -> (closed: bool)
        ensures
            closed == self.curve.spec_is_closed(),
    {
        self.curve.is_closed()
    }
}

/// The shape, not the frame, answers for closure and extent: the same shape
/// placed on any two planes reports the same extent and the same closure.
pub proof fn frame_does_not_change_closure_or_extent<P>(first: PlanarCurve<P>, second: PlanarCurve<P>)
    requires
        first.curve == second.curve,
    ensures
        first.curve.spec_extent() == second.curve.spec_extent(),
        first.curve.spec_is_closed() == second.curve.spec_is_closed(),
{
}

} // verus!
