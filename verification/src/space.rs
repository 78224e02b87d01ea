//! Where plane geometry sits in space, and the bookkeeping of spatial
//! curves: helices, splines and the kinds their unions report.

pub mod planar;
pub mod arc_union;
pub mod line_union;
pub mod helix;
pub mod nurbs;
