//! Planar face extrusion and offset: the modes, the outcomes of a planar
//! intersection, how a profile ring is cut into bounded pieces, and how loose
//! boundary pieces chain into closed loops.

use vstd::prelude::*;
use crate::geom2d::{CurveShape, Line, Polyline, PolylineVertex};

verus! {

/// The two intentionally distinct face editing operations.
#[derive(Debug, Clone, Copy, PartialEq, Eq, Structural)]
pub enum PresspullMode {
    /// Add or remove a prism without extending neighbouring surfaces.
    Extrude,
    /// Extend or trim the neighbouring surfaces to the moved face plane.
    Offset,
}

/// The positive-area and zero-area outcomes of a planar intersection, over
/// whatever body type the caller's solid modeller uses.
#[derive(Debug, Clone)]
pub enum PlanarIntersection<B> {
    /// The inputs share a bounded area represented by this open sheet body.
    Area(B),
    /// The inputs meet only along a boundary point or edge.
    Touching,
    /// The inputs have no point in common.
    Disjoint,
}

/// One bounded piece of an extrusion profile, named by where it comes from
/// in the ring.
#[derive(Debug, Clone, Copy, PartialEq, Eq, Structural)]
pub enum ProfilePiece {
    /// The curve at this position of the ring, unchanged.
    Whole { curve: usize },
    /// Quarter `quarter` (0 to 3, in order of increasing angle from the
    /// conic's own start) of a complete circle, arc or ellipse.
    Quarter { curve: usize, quarter: usize },
    /// Segment `segment` of the polyline at this position, in order.
    Segment { curve: usize, segment: usize },
}

impl ProfilePiece {
    /// The ring position this piece comes from.
    pub open spec fn source(self) -> int {
        match self {
            ProfilePiece::Whole { curve } => curve as int,
            ProfilePiece::Quarter { curve, .. } => curve as int,
            ProfilePiece::Segment { curve, .. } => curve as int,
        }
    }
}

/// The four quarters of the complete conic at ring position `i`.
pub open spec fn quarters_of(i: int) -> Seq<ProfilePiece> {
    Seq::new(4, |q: int| ProfilePiece::Quarter { curve: i as usize, quarter: q as usize })
}

/// The segments of the polyline at ring position `i`.
pub open spec fn segments_of(i: int, count: nat) -> Seq<ProfilePiece> {
    Seq::new(count, |k: int| ProfilePiece::Segment { curve: i as usize, segment: k as usize })
}

/// Whether a shape is a complete conic: a circle, or an arc or elliptical
/// arc sweeping a whole turn.
pub open spec fn is_complete_conic(shape: CurveShape) -> bool {
    match shape {
        CurveShape::Circle => true,
        CurveShape::Arc { full_turn } => full_turn,
        CurveShape::Ellipse { full_turn } => full_turn,
        _ => false,
    }
}

/// The pieces one ring curve becomes: four quarters for a complete conic,
/// its segments for a polyline, and itself otherwise.
pub open spec fn pieces_of(i: int, shape: CurveShape) -> Seq<ProfilePiece> {
    if is_complete_conic(shape) {
        quarters_of(i)
    } else if shape is Polyline {
        segments_of(i, shape.spec_segment_count())
    } else {
        seq![ProfilePiece::Whole { curve: i as usize }]
    }
}

/// The pieces of a whole ring, curve by curve in ring order.
pub open spec fn profile_plan(ring: Seq<CurveShape>) -> Seq<ProfilePiece>
    decreases ring.len(),
{
    if ring.len() == 0 {
        seq![]
    } else {
        profile_plan(ring.drop_last()) + pieces_of(ring.len() - 1, ring.last())
    }
}

proof fn lemma_plan_step(ring: Seq<CurveShape>, i: int)
    requires
        0 <= i < ring.len(),
    ensures
        profile_plan(ring.subrange(0, i + 1)) == profile_plan(ring.subrange(0, i)) + pieces_of(
            i,
            ring[i],
        ),
{
    assert(ring.subrange(0, i + 1).drop_last() =~= ring.subrange(0, i));
}

/// Splits complete conics into exact bounded pieces for extrusion builders.
///
/// A circle, or an arc or ellipse that sweeps a whole turn, becomes its four
/// quarters; a polyline becomes its segments; every other curve is kept
/// whole. The pieces come back in ring order, each naming the ring position
/// it was cut from.
pub fn extrusion_profile_pieces(ring: &[CurveShape]) -> (pieces: Vec<ProfilePiece>)
    ensures
        pieces@ == profile_plan(ring@),
{
    let mut pieces: Vec<ProfilePiece> = Vec::new();
    let mut i: usize = 0;
    while i < ring.len()
        invariant
            i <= ring.len(),
            pieces@ == profile_plan(ring@.subrange(0, i as int)),
        decreases ring.len() - i,
    {
        proof {
            lemma_plan_step(ring@, i as int);
        }
        let shape = ring[i];
        let ghost before = pieces@;
        let complete = match shape {
            CurveShape::Circle => true,
            CurveShape::Arc { full_turn } => full_turn,
            CurveShape::Ellipse { full_turn } => full_turn,
            _ => false,
        };
        if complete {
            let mut quarter: usize = 0;
            while quarter < 4
                invariant
                    quarter <= 4,
                    i < ring.len(),
                    pieces@ == before + quarters_of(i as int).take(quarter as int),
                decreases 4 - quarter,
            {
                pieces.push(ProfilePiece::Quarter { curve: i, quarter });
                assert(quarters_of(i as int).take(quarter + 1) =~= quarters_of(i as int).take(
                    quarter as int,
                ).push(ProfilePiece::Quarter { curve: i, quarter }));
                quarter = quarter + 1;
            }
            assert(quarters_of(i as int).take(4) =~= quarters_of(i as int));
        } else if let CurveShape::Polyline { .. } = shape {
            let count = shape.segment_count();
            let mut segment: usize = 0;
            while segment < count
                invariant
                    segment <= count,
                    count == shape.spec_segment_count(),
                    i < ring.len(),
                    pieces@ == before + segments_of(i as int, count as nat).take(segment as int),
                decreases count - segment,
            {
                pieces.push(ProfilePiece::Segment { curve: i, segment });
                assert(segments_of(i as int, count as nat).take(segment + 1) =~= segments_of(
                    i as int,
                    count as nat,
                ).take(segment as int).push(ProfilePiece::Segment { curve: i, segment }));
                segment = segment + 1;
            }
            assert(segments_of(i as int, count as nat).take(count as int) =~= segments_of(
                i as int,
                count as nat,
            ));
        } else {
            pieces.push(ProfilePiece::Whole { curve: i });
        }
        i = i + 1;
    }
    assert(ring@.subrange(0, ring@.len() as int) =~= ring@);
    pieces
}

/// What the extrusion plan promises of every ring: each piece names a
/// position of the ring; the pieces run in ring order; no complete conic and
/// no polyline survives whole; and a complete conic yields exactly its four
/// quarters.
pub proof fn profile_plan_is_bounded_and_ordered(ring: Seq<CurveShape>)
    requires
        ring.len() <= usize::MAX,
    ensures
        forall|k: int|
            0 <= k < profile_plan(ring).len() ==> 0 <= #[trigger] profile_plan(ring)[k].source()
                < ring.len(),
        forall|j: int, k: int|
            0 <= j <= k < profile_plan(ring).len() ==> #[trigger] profile_plan(ring)[j].source()
                <= #[trigger] profile_plan(ring)[k].source(),
        forall|k: int|
            0 <= k < profile_plan(ring).len() && #[trigger] profile_plan(ring)[k] is Whole
                ==> !is_complete_conic(ring[profile_plan(ring)[k].source()]) && !(
            ring[profile_plan(ring)[k].source()] is Polyline),
        forall|k: int|
            0 <= k < profile_plan(ring).len() && #[trigger] profile_plan(ring)[k] is Quarter
                ==> is_complete_conic(ring[profile_plan(ring)[k].source()]),
    decreases ring.len(),
{
    if ring.len() > 0 {
        let rest = ring.drop_last();
        profile_plan_is_bounded_and_ordered(rest);
        let last = ring.len() - 1;
        let head = profile_plan(rest);
        let tail = pieces_of(last, ring.last());
        let plan = profile_plan(ring);
        assert(plan == head + tail);
        assert forall|k: int| 0 <= k < tail.len() implies (#[trigger] tail[k]).source() == last
            && (tail[k] is Whole ==> !is_complete_conic(ring[last]) && !(ring[last] is Polyline))
            && (tail[k] is Quarter ==> is_complete_conic(ring[last])) by {
            if is_complete_conic(ring.last()) {
                assert(tail[k] == ProfilePiece::Quarter { curve: last as usize, quarter: k as usize });
            } else if ring.last() is Polyline {
                assert(tail[k] == ProfilePiece::Segment { curve: last as usize, segment: k as usize });
            } else {
                assert(tail[k] == ProfilePiece::Whole { curve: last as usize });
            }
        }
        assert forall|k: int| 0 <= k < plan.len() implies 0 <= #[trigger] plan[k].source() < ring.len()
            && (plan[k] is Whole ==> !is_complete_conic(ring[plan[k].source()]) && !(
        ring[plan[k].source()] is Polyline)) && (plan[k] is Quarter ==> is_complete_conic(
            ring[plan[k].source()],
        )) by {
            if k < head.len() {
                assert(plan[k] == head[k]);
                assert(ring[head[k].source()] == rest[head[k].source()]);
            } else {
                assert(plan[k] == tail[k - head.len()]);
            }
        }
        assert forall|j: int, k: int|
            0 <= j <= k < plan.len() implies #[trigger] plan[j].source() <= #[trigger] plan[
            k].source() by {
            if k < head.len() {
                assert(plan[j] == head[j]);
                assert(plan[k] == head[k]);
            } else if j < head.len() {
                assert(plan[j] == head[j]);
                assert(plan[k] == tail[k - head.len()]);
            } else {
                assert(plan[j] == tail[j - head.len()]);
                assert(plan[k] == tail[k - head.len()]);
            }
        }
    }
}

/// Only a complete conic is cut into quarters, and every other curve that
/// is not a polyline stays whole: a Quarter piece comes from a circle, or
/// an arc or ellipse sweeping a whole turn; each ring position holding any
/// other non-polyline curve yields exactly one piece, and that piece is the
/// curve whole.
pub proof fn only_complete_conics_are_quartered(ring: Seq<CurveShape>)
    requires
        ring.len() <= usize::MAX,
    ensures
        forall|k: int|
            0 <= k < profile_plan(ring).len() && #[trigger] profile_plan(ring)[k] is Quarter ==> {
                let shape = ring[profile_plan(ring)[k].source()];
                shape == CurveShape::Circle || shape == (CurveShape::Arc { full_turn: true }) || shape
                    == (CurveShape::Ellipse { full_turn: true })
            },
        forall|i: int|
            0 <= i < ring.len() && !(ring[i] is Polyline) && ring[i] != CurveShape::Circle && ring[i]
                != (CurveShape::Arc { full_turn: true }) && ring[i] != (CurveShape::Ellipse {
                full_turn: true,
            }) ==> exists|k: int|
                0 <= k < profile_plan(ring).len() && #[trigger] profile_plan(ring)[k] == (
                ProfilePiece::Whole { curve: i as usize }),
        forall|k: int, l: int|
            0 <= k < profile_plan(ring).len() && 0 <= l < profile_plan(ring).len()
                && #[trigger] profile_plan(ring)[k].source() == #[trigger] profile_plan(ring)[l].source()
                && !(ring[profile_plan(ring)[k].source()] is Polyline)
                && ring[profile_plan(ring)[k].source()] != CurveShape::Circle
                && ring[profile_plan(ring)[k].source()] != (CurveShape::Arc { full_turn: true })
                && ring[profile_plan(ring)[k].source()] != (CurveShape::Ellipse { full_turn: true })
                ==> k == l,
    decreases ring.len(),
{
    profile_plan_is_bounded_and_ordered(ring);
    if ring.len() > 0 {
        let rest = ring.drop_last();
        only_complete_conics_are_quartered(rest);
        profile_plan_is_bounded_and_ordered(rest);
        let last = ring.len() - 1;
        let head = profile_plan(rest);
        let tail = pieces_of(last, ring.last());
        let plan = profile_plan(ring);
        assert(plan == head + tail);
        let plain = !(ring[last] is Polyline) && ring[last] != CurveShape::Circle && ring[last]
            != (CurveShape::Arc { full_turn: true }) && ring[last] != (CurveShape::Ellipse {
            full_turn: true,
        });
        if plain {
            assert(!is_complete_conic(ring[last]));
            assert(tail =~= seq![ProfilePiece::Whole { curve: last as usize }]);
        }
        assert forall|k: int| 0 <= k < tail.len() implies (#[trigger] tail[k]).source() == last by {
            if is_complete_conic(ring.last()) {
                assert(tail[k] == ProfilePiece::Quarter { curve: last as usize, quarter: k as usize });
            } else if ring.last() is Polyline {
                assert(tail[k] == ProfilePiece::Segment { curve: last as usize, segment: k as usize });
            } else {
                assert(tail[k] == ProfilePiece::Whole { curve: last as usize });
            }
        }
        assert forall|k: int|
            0 <= k < plan.len() && #[trigger] plan[k] is Quarter implies {
                let shape = ring[plan[k].source()];
                shape == CurveShape::Circle || shape == (CurveShape::Arc { full_turn: true }) || shape
                    == (CurveShape::Ellipse { full_turn: true })
            } by {
            assert(is_complete_conic(ring[plan[k].source()]));
        }
        assert forall|i: int|
            0 <= i < ring.len() && !(ring[i] is Polyline) && ring[i] != CurveShape::Circle && ring[i]
                != (CurveShape::Arc { full_turn: true }) && ring[i] != (CurveShape::Ellipse {
                full_turn: true,
            }) implies exists|k: int|
                0 <= k < plan.len() && #[trigger] plan[k] == (ProfilePiece::Whole { curve: i as usize }) by {
            if i < last {
                assert(rest[i] == ring[i]);
                let k = choose|k: int|
                    0 <= k < head.len() && #[trigger] head[k] == (ProfilePiece::Whole {
                        curve: i as usize,
                    });
                assert(plan[k] == head[k]);
            } else {
                assert(plan[head.len() as int] == tail[0]);
            }
        }
        assert forall|k: int, l: int|
            0 <= k < plan.len() && 0 <= l < plan.len() && #[trigger] plan[k].source()
                == #[trigger] plan[l].source() && !(ring[plan[k].source()] is Polyline)
                && ring[plan[k].source()] != CurveShape::Circle && ring[plan[k].source()]
                != (CurveShape::Arc { full_turn: true }) && ring[plan[k].source()]
                != (CurveShape::Ellipse { full_turn: true }) implies k == l by {
            let i = plan[k].source();
            if k < head.len() {
                assert(plan[k] == head[k]);
            } else {
                assert(plan[k] == tail[k - head.len()]);
            }
            if l < head.len() {
                assert(plan[l] == head[l]);
            } else {
                assert(plan[l] == tail[l - head.len()]);
            }
            if k < head.len() && l < head.len() {
                assert(rest[i] == ring[i]);
                assert(head[k].source() == head[l].source());
            }
        }
    }
}

/// Every ring curve yields one contiguous block of pieces, and that block is
/// exactly: the four quarters, in order, of a circle or of an arc or ellipse
/// sweeping a whole turn; segments `0, 1, ...` of a polyline, one per vertex
/// when closed and one fewer when open; and otherwise the curve itself,
/// whole. The block starts after the pieces of the curves before it, and no
/// piece cut from that curve lies outside it.
pub proof fn each_curve_yields_its_own_block(ring: Seq<CurveShape>)
    requires
        ring.len() <= usize::MAX,
    ensures
        forall|i: int|
            #![trigger ring[i]]
            0 <= i < ring.len() ==> {
                let shape = ring[i];
                let quartered = shape == CurveShape::Circle || shape == (CurveShape::Arc {
                    full_turn: true,
                }) || shape == (CurveShape::Ellipse { full_turn: true });
                let count: int = if quartered {
                    4
                } else if shape is Polyline {
                    if shape->Polyline_closed {
                        shape->vertices as int
                    } else if shape->vertices == 0 {
                        0
                    } else {
                        shape->vertices - 1
                    }
                } else {
                    1
                };
                let b = profile_plan(ring.subrange(0, i)).len() as int;
                {
                        &&& b + count <= profile_plan(ring).len()
                        &&& forall|q: int|
                            0 <= q < count ==> #[trigger] profile_plan(ring)[b + q] == if quartered {
                                ProfilePiece::Quarter { curve: i as usize, quarter: q as usize }
                            } else if shape is Polyline {
                                ProfilePiece::Segment { curve: i as usize, segment: q as usize }
                            } else {
                                ProfilePiece::Whole { curve: i as usize }
                            }
                        &&& forall|k: int|
                            0 <= k < profile_plan(ring).len() && #[trigger] profile_plan(ring)[k].source()
                                == i ==> b <= k < b + count
                    }
            },
    decreases ring.len(),
{
    profile_plan_is_bounded_and_ordered(ring);
    if ring.len() > 0 {
        let rest = ring.drop_last();
        each_curve_yields_its_own_block(rest);
        profile_plan_is_bounded_and_ordered(rest);
        let last = ring.len() - 1;
        let head = profile_plan(rest);
        let tail = pieces_of(last, ring.last());
        let plan = profile_plan(ring);
        assert(plan == head + tail);
        assert forall|k: int| 0 <= k < tail.len() implies (#[trigger] tail[k]).source() == last by {
            if is_complete_conic(ring.last()) {
                assert(tail[k] == ProfilePiece::Quarter { curve: last as usize, quarter: k as usize });
            } else if ring.last() is Polyline {
                assert(tail[k] == ProfilePiece::Segment { curve: last as usize, segment: k as usize });
            } else {
                assert(tail[k] == ProfilePiece::Whole { curve: last as usize });
            }
        }
        assert forall|i: int|
            #![trigger ring[i]]
            0 <= i < ring.len() implies {
                let shape = ring[i];
                let quartered = shape == CurveShape::Circle || shape == (CurveShape::Arc {
                    full_turn: true,
                }) || shape == (CurveShape::Ellipse { full_turn: true });
                let count: int = if quartered {
                    4
                } else if shape is Polyline {
                    if shape->Polyline_closed {
                        shape->vertices as int
                    } else if shape->vertices == 0 {
                        0
                    } else {
                        shape->vertices - 1
                    }
                } else {
                    1
                };
                let b = profile_plan(ring.subrange(0, i)).len() as int;
                {
                        &&& b + count <= plan.len()
                        &&& forall|q: int|
                            0 <= q < count ==> #[trigger] plan[b + q] == if quartered {
                                ProfilePiece::Quarter { curve: i as usize, quarter: q as usize }
                            } else if shape is Polyline {
                                ProfilePiece::Segment { curve: i as usize, segment: q as usize }
                            } else {
                                ProfilePiece::Whole { curve: i as usize }
                            }
                        &&& forall|k: int|
                            0 <= k < plan.len() && #[trigger] plan[k].source() == i ==> b <= k < b
                                + count
                    }
            } by {
            let shape = ring[i];
            let quartered = shape == CurveShape::Circle || shape == (CurveShape::Arc {
                full_turn: true,
            }) || shape == (CurveShape::Ellipse { full_turn: true });
            let count: int = if quartered {
                4
            } else if shape is Polyline {
                if shape->Polyline_closed {
                    shape->vertices as int
                } else if shape->vertices == 0 {
                    0
                } else {
                    shape->vertices - 1
                }
            } else {
                1
            };
            if i < last {
                assert(rest[i] == ring[i]);
                assert(ring.subrange(0, i) =~= rest.subrange(0, i));
                let b = profile_plan(ring.subrange(0, i)).len() as int;
                assert forall|q: int| 0 <= q < count implies #[trigger] plan[b + q] == if quartered {
                    ProfilePiece::Quarter { curve: i as usize, quarter: q as usize }
                } else if shape is Polyline {
                    ProfilePiece::Segment { curve: i as usize, segment: q as usize }
                } else {
                    ProfilePiece::Whole { curve: i as usize }
                } by {
                    assert(plan[b + q] == head[b + q]);
                }
                assert forall|k: int|
                    0 <= k < plan.len() && #[trigger] plan[k].source() == i implies b <= k < b + count by {
                    if k < head.len() {
                        assert(plan[k] == head[k]);
                    } else {
                        assert(plan[k] == tail[k - head.len()]);
                    }
                }
            } else {
                assert(ring.subrange(0, i) =~= rest);
                let b = head.len() as int;
                assert(quartered == is_complete_conic(shape));
                assert(tail.len() == count);
                assert forall|q: int| 0 <= q < count implies #[trigger] plan[b + q] == if quartered {
                    ProfilePiece::Quarter { curve: i as usize, quarter: q as usize }
                } else if shape is Polyline {
                    ProfilePiece::Segment { curve: i as usize, segment: q as usize }
                } else {
                    ProfilePiece::Whole { curve: i as usize }
                } by {
                    assert(plan[b + q] == tail[q]);
                }
                assert forall|k: int|
                    0 <= k < plan.len() && #[trigger] plan[k].source() == i implies b <= k < b + count by {
                    if k < head.len() {
                        assert(plan[k] == head[k]);
                    }
                }
            }
        }
    }
}

/// The same segment traversed the other way.
pub fn reversed_line<S: Copy>(line: &Line<S>) -> (reversed: Line<S>)
    ensures
        reversed.start == line.end,
        reversed.end == line.start,
{
    Line { start: line.end, end: line.start }
}

/// Which vertex's bulge, negated, the vertex at position `k` of a reversed
/// polyline carries: the bulge belongs to the segment leaving a vertex, so
/// reversed it comes from the vertex before; the first vertex of the
/// original takes the closing segment's bulge when the polyline is closed,
/// and none when it is open.
pub open spec fn reversed_bulge_source(count: int, closed: bool, k: int) -> Option<int> {
    let index = count - 1 - k;
    if index > 0 {
        Some(index - 1)
    } else if closed && count > 0 {
        Some(count - 1)
    } else {
        None
    }
}

/// `after` is `before` traversed backwards: vertices in reverse order, each
/// bulge the negation (by `negate`) of the one its segment had, and `zero`
/// where an open polyline's reversed last vertex has no segment.
pub open spec fn is_reversal<S, F: Fn(S) -> S>(
    before: Seq<PolylineVertex<S>>,
    closed: bool,
    after: Seq<PolylineVertex<S>>,
    negate: F,
    zero: S,
) -> bool {
    &&& after.len() == before.len()
    &&& forall|k: int|
        0 <= k < after.len() ==> (#[trigger] after[k]).position == before[before.len() - 1
            - k].position
    &&& forall|k: int|
        0 <= k < after.len() ==> match reversed_bulge_source(before.len() as int, closed, k) {
            Some(j) => negate.ensures((before[j].bulge,), (#[trigger] after[k]).bulge),
            None => after[k].bulge == zero,
        }
}

/// The same polyline traversed the other way. Negating a bulge is the
/// caller's arithmetic, handed over as `negate`; `zero` is the bulge of a
/// straight segment.
pub fn reversed_polyline<S: Copy, F: Fn(S) -> S>(polyline: &Polyline<S>, negate: F, zero: S) -> (reversed:
    Polyline<S>)
    requires
        forall|b: S| #[trigger] negate.requires((b,)),
    ensures
        reversed.closed == polyline.closed,
        is_reversal(polyline.vertices@, polyline.closed, reversed.vertices@, negate, zero),
{
    let count = polyline.vertices.len();
    let mut vertices: Vec<PolylineVertex<S>> = Vec::new();
    let mut k: usize = 0;
    while k < count
        invariant
            count == polyline.vertices@.len(),
            k <= count,
            forall|b: S| #[trigger] negate.requires((b,)),
            vertices@.len() == k,
            forall|j: int|
                0 <= j < k ==> (#[trigger] vertices@[j]).position == polyline.vertices@[count - 1
                    - j].position,
            forall|j: int|
                0 <= j < k ==> match reversed_bulge_source(count as int, polyline.closed, j) {
                    Some(i) => negate.ensures(
                        (polyline.vertices@[i].bulge,),
                        (#[trigger] vertices@[j]).bulge,
                    ),
                    None => vertices@[j].bulge == zero,
                },
        decreases count - k,
    {
        let index = count - 1 - k;
        let bulge = if index > 0 {
            negate(polyline.vertices[index - 1].bulge)
        } else if polyline.closed && count > 0 {
            negate(polyline.vertices[count - 1].bulge)
        } else {
            zero
        };
        vertices.push(PolylineVertex { position: polyline.vertices[index].position, bulge });
        k = k + 1;
    }
    Polyline { vertices, closed: polyline.closed }
}

/// Reversing a polyline twice gives it back, when negation undoes itself
/// and an open polyline's last vertex carries the zero bulge (it leads no
/// segment, so reversal cannot keep anything else there).
pub proof fn reversing_twice_restores<S, F: Fn(S) -> S>(
    before: Seq<PolylineVertex<S>>,
    closed: bool,
    once: Seq<PolylineVertex<S>>,
    twice: Seq<PolylineVertex<S>>,
    negate: F,
    zero: S,
)
    requires
        is_reversal(before, closed, once, negate, zero),
        is_reversal(once, closed, twice, negate, zero),
        forall|a: S, b: S, c: S|
            #[trigger] negate.ensures((a,), b) && #[trigger] negate.ensures((b,), c) ==> c == a,
        !closed && before.len() > 0 ==> before.last().bulge == zero,
    ensures
        twice == before,
{
    let n = before.len() as int;
    assert forall|k: int| 0 <= k < n implies #[trigger] twice[k] == before[k] by {
        assert(twice[k].position == once[n - 1 - k].position);
        assert(once[n - 1 - k].position == before[k].position);
        if n - 1 - k > 0 {
            assert(negate.ensures((once[n - 2 - k].bulge,), twice[k].bulge));
            assert(reversed_bulge_source(n, closed, n - 2 - k) == Some(k));
            assert(negate.ensures((before[k].bulge,), once[n - 2 - k].bulge));
        } else if closed {
            assert(negate.ensures((once[n - 1].bulge,), twice[k].bulge));
            assert(reversed_bulge_source(n, closed, n - 1) == Some(n - 1));
            assert(negate.ensures((before[n - 1].bulge,), once[n - 1].bulge));
        } else {
            assert(twice[k].bulge == zero);
        }
    }
    assert(twice =~= before);
}

/// Each segment of the reversed polyline is a segment of the original run
/// backwards with its bulge negated: the segment leaving reversed vertex
/// `k` joins the original's vertices `n - 1 - k` and `n - 2 - k` and bends
/// as the original's segment leaving `n - 2 - k` did. A closed polyline's
/// closing segment is the original's closing segment backwards; an open
/// polyline's final vertex leads no segment and carries `zero`.
pub proof fn each_reversed_segment_is_an_original_one_backwards<S, F: Fn(S) -> S>(
    before: Seq<PolylineVertex<S>>,
    closed: bool,
    after: Seq<PolylineVertex<S>>,
    negate: F,
    zero: S,
)
    requires
        is_reversal(before, closed, after, negate, zero),
        before.len() > 0,
    ensures
        forall|k: int|
            0 <= k < before.len() - 1 ==> {
                &&& (#[trigger] after[k]).position == before[before.len() - 1 - k].position
                &&& after[k + 1].position == before[before.len() - 2 - k].position
                &&& negate.ensures((before[before.len() - 2 - k].bulge,), after[k].bulge)
            },
        after[before.len() - 1].position == before[0].position,
        after[0].position == before[before.len() - 1].position,
        closed ==> negate.ensures((before[before.len() - 1].bulge,), after[before.len() - 1].bulge),
        !closed ==> after[before.len() - 1].bulge == zero,
{
    let n = before.len() as int;
    assert forall|k: int| 0 <= k < n - 1 implies {
        &&& (#[trigger] after[k]).position == before[n - 1 - k].position
        &&& after[k + 1].position == before[n - 2 - k].position
        &&& negate.ensures((before[n - 2 - k].bulge,), after[k].bulge)
    } by {
        assert(after[k + 1].position == before[n - 1 - (k + 1)].position);
        assert(reversed_bulge_source(n, closed, k) == Some(n - 2 - k));
    }
    assert(after[n - 1].position == before[n - 1 - (n - 1)].position);
    assert(after[0].position == before[n - 1 - 0].position);
    assert(reversed_bulge_source(n, closed, n - 1) == if closed { Some(n - 1) } else { None::<int> });
}

} // verus!
