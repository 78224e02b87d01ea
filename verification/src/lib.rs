//! The discrete core of a planar CAD kernel: what a curve is bounded by and
//! whether it closes, how a profile ring is cut into bounded pieces before an
//! extrusion, how loose boundary pieces chain into closed loops, and the index
//! bookkeeping of splines, helices and parameter-space samples.
//!
//! Coordinates never enter this crate as numbers it computes with: where a
//! value is only carried, it is a type parameter; where a geometric decision
//! (are two points the same, does an arc cover a whole turn) has to be taken,
//! the caller takes it and hands the answer over.

pub mod geom2d;
pub mod space;
pub mod brep;
