//! The plane-curve vocabulary the rest of the kernel reads.

use vstd::prelude::*;

verus! {

/// How far a curve's parameter runs.
#[derive(Debug, Clone, Copy, PartialEq, Eq, Structural)]
pub enum Extent {
    /// From its start to its end: the parameter covers `0..=1`.
    Bounded,
    /// From its start onwards without end, as a ray does.
    Forward,
    /// Without end either way, as a construction line does.
    Infinite,
}

/// A plane curve as the kernel's decisions see it: which kind of curve it
/// is, and the facts about it that those decisions read.
///
/// The coordinates stay with the caller. `full_turn` says whether an arc's
/// (or an elliptical arc's) sweep covers a whole turn; `closed` on a
/// polyline or a spline says whether it returns to its start; `vertices` is
/// a polyline's vertex count.
#[derive(Debug, Clone, Copy, PartialEq, Eq, Structural)]
pub enum CurveShape {
    Line,
    Ray,
    XLine,
    Circle,
    Arc { full_turn: bool },
    Ellipse { full_turn: bool },
    Polyline { vertices: usize, closed: bool },
    Nurbs { closed: bool },
}

impl CurveShape {
    /// The extent of a shape: a ray runs forward without end, a construction
    /// line both ways, and every other kind is bounded.
    pub open spec fn spec_extent(self) -> Extent {
        match self {
            CurveShape::Ray => Extent::Forward,
            CurveShape::XLine => Extent::Infinite,
            _ => Extent::Bounded,
        }
    }

    /// Whether a shape returns to its start: a circle always, an arc or an
    /// elliptical arc when it sweeps a whole turn, a polyline or a spline when
    /// it is closed, and a straight kind never.
    pub open spec fn spec_is_closed(self) -> bool {
        match self {
            CurveShape::Circle => true,
            CurveShape::Arc { full_turn } => full_turn,
            CurveShape::Ellipse { full_turn } => full_turn,
            CurveShape::Polyline { closed, .. } => closed,
            CurveShape::Nurbs { closed } => closed,
            _ => false,
        }
    }

    /// How many pieces a polyline is made of: one per vertex when it is
    /// closed, one fewer when it is open.
    pub open spec fn spec_segment_count(self) -> nat {
        match self {
            CurveShape::Polyline { vertices, closed } =>
                if closed { vertices as nat } else if vertices == 0 { 0 } else { (vertices - 1) as nat },
            _ => 0,
        }
    }

    /// How far the parameter of this shape runs.
    pub fn extent(&self) -> (extent: Extent)
        ensures
            extent == self.spec_extent(),
    {
        match self {
            CurveShape::Ray => Extent::Forward,
            CurveShape::XLine => Extent::Infinite,
            _ => Extent::Bounded,
        }
    }

    /// Whether the shape returns to where it started.
    pub fn is_closed(&self) -> (closed: bool)
        ensures
            closed == self.spec_is_closed(),
    {
        match self {
            CurveShape::Circle => true,
            CurveShape::Arc { full_turn } => *full_turn,
            CurveShape::Ellipse { full_turn } => *full_turn,
            CurveShape::Polyline { closed, .. } => *closed,
            CurveShape::Nurbs { closed } => *closed,
            _ => false,
        }
    }

    /// How many segments a polyline is cut into; zero for every other kind.
    pub fn segment_count(&self) -> (count: usize)
        ensures
            count == self.spec_segment_count(),
    {
        match self {
            CurveShape::Polyline { vertices, closed } => {
                if *closed {
                    *vertices
                } else if *vertices == 0 {
                    0
                } else {
                    *vertices - 1
                }
            },
            _ => 0,
        }
    }
}

/// A shape's closure is its own answer: a circle always closes, an arc or
/// an ellipse closes exactly when it sweeps a whole turn, a polyline or a
/// spline exactly when it is flagged closed, and a line, ray or
/// construction line never.
pub proof fn closure_is_the_shapes_own(vertices: usize, closed: bool, full_turn: bool)
    ensures
        CurveShape::Circle.spec_is_closed(),
        (CurveShape::Arc { full_turn }).spec_is_closed() == full_turn,
        (CurveShape::Ellipse { full_turn }).spec_is_closed() == full_turn,
        (CurveShape::Polyline { vertices, closed }).spec_is_closed() == closed,
        (CurveShape::Nurbs { closed }).spec_is_closed() == closed,
        !CurveShape::Line.spec_is_closed(),
        !CurveShape::Ray.spec_is_closed(),
        !CurveShape::XLine.spec_is_closed(),
{
}

/// Only a ray and a construction line are unbounded: a ray forwards, a
/// construction line both ways; every other shape, closed or open, runs over
/// a bounded parameter range.
pub proof fn only_rays_and_construction_lines_are_unbounded(shape: CurveShape)
    ensures
        shape.spec_extent() == Extent::Forward <==> shape == CurveShape::Ray,
        shape.spec_extent() == Extent::Infinite <==> shape == CurveShape::XLine,
        shape.spec_extent() == Extent::Bounded <==> (shape != CurveShape::Ray && shape
            != CurveShape::XLine),
{
}

/// A polyline has one segment per vertex when closed and one fewer when
/// open; other shapes have none.
pub proof fn a_polyline_has_a_segment_per_edge(vertices: usize, closed: bool)
    ensures
        (CurveShape::Polyline { vertices, closed: true }).spec_segment_count() == vertices,
        vertices > 0 ==> (CurveShape::Polyline { vertices, closed: false }).spec_segment_count() + 1
            == vertices,
        (CurveShape::Polyline { vertices: 0, closed: false }).spec_segment_count() == 0,
        CurveShape::Circle.spec_segment_count() == 0,
        (CurveShape::Nurbs { closed }).spec_segment_count() == 0,
{
}

/// A straight segment between two points, in whatever coordinate type the
/// caller uses.
#[derive(Debug, Clone, Copy)]
pub struct Line<S> {
    pub start: [S; 2],
    pub end: [S; 2],
}

/// One vertex of a polyline: where it is, and the bulge of the segment that
/// leaves it (zero for a straight segment, its sign giving the turn).
#[derive(Debug, Clone, Copy)]
pub struct PolylineVertex<S> {
    pub position: [S; 2],
    pub bulge: S,
}

/// A chain of straight and circular segments through its vertices, closed
/// back to the first one when `closed` holds.
#[derive(Debug, Clone)]
pub struct Polyline<S> {
    pub vertices: Vec<PolylineVertex<S>>,
    pub closed: bool,
}

} // verus!
