//! Helical curves: their winding and the knot layout of their cubic
//! approximation.

use vstd::prelude::*;

verus! {

/// Direction in which the curve winds when viewed along its positive axis.
#[derive(Debug, Clone, Copy, PartialEq, Eq, Structural)]
pub enum HelixDirection {
    Clockwise,
    CounterClockwise,
}

/// The knot at position `k` of the cubic approximation built from
/// `segments` Bezier pieces: four zeros, each interior span boundary three
/// times, and four copies of `segments` at the end.
pub open spec fn helix_knot(segments: int, k: int) -> int {
    if k < 4 {
        0
    } else if k >= 3 * segments + 1 {
        segments
    } else {
        (k - 1) / 3
    }
}

/// The knot vector of a piecewise cubic helix approximation with `segments`
/// Bezier pieces, as span indices (the knot values are these numbers).
///
/// There are `3 * segments + 1` control points, so `3 * segments + 5` knots.
pub fn helix_knots(segments: usize) -> (knots: Vec<usize>)
    requires
        segments >= 1,
        3 * segments + 5 <= usize::MAX,
    ensures
        knots@.len() == 3 * segments + 5,
        forall|k: int| 0 <= k < knots@.len() ==> knots@[k] == helix_knot(segments as int, k),
{
    let mut knots: Vec<usize> = Vec::new();
    let mut i: usize = 0;
    while i < 4
        invariant
            i <= 4,
            knots@.len() == i,
            forall|k: int| 0 <= k < knots@.len() ==> knots@[k] == helix_knot(segments as int, k),
        decreases 4 - i,
    {
        knots.push(0);
        i = i + 1;
    }
    let mut span: usize = 1;
    while span < segments
        invariant
            1 <= span <= segments,
            3 * segments + 5 <= usize::MAX,
            knots@.len() == 3 * span + 1,
            forall|k: int| 0 <= k < knots@.len() ==> knots@[k] == helix_knot(segments as int, k),
        decreases segments - span,
    {
        knots.push(span);
        knots.push(span);
        knots.push(span);
        span = span + 1;
    }
    let mut j: usize = 0;
    while j < 4
        invariant
            span == segments,
            j <= 4,
            3 * segments + 5 <= usize::MAX,
            knots@.len() == 3 * segments + 1 + j,
            forall|k: int| 0 <= k < knots@.len() ==> knots@[k] == helix_knot(segments as int, k),
        decreases 4 - j,
    {
        knots.push(segments);
        j = j + 1;
    }
    knots
}

/// The helix knot vector is clamped at both ends, never decreases, and its
/// length is the control count plus the order.
pub proof fn helix_knots_are_clamped(segments: int)
    requires
        segments >= 1,
    ensures
        forall|k: int| 0 <= k < 4 ==> helix_knot(segments, k) == 0,
        forall|k: int|
            3 * segments + 1 <= k < 3 * segments + 5 ==> helix_knot(segments, k) == segments,
        forall|i: int, j: int|
            0 <= i <= j < 3 * segments + 5 ==> helix_knot(segments, i) <= helix_knot(segments, j),
{
    assert forall|i: int, j: int|
        0 <= i <= j < 3 * segments + 5 implies helix_knot(segments, i) <= helix_knot(segments, j) by {
        if 4 <= i && j < 3 * segments + 1 {
            assert((i - 1) / 3 <= (j - 1) / 3) by (nonlinear_arith)
                requires
                    1 <= i - 1 <= j - 1,
            ;
        }
        if 4 <= i && i < 3 * segments + 1 {
            assert((i - 1) / 3 <= segments) by (nonlinear_arith)
                requires
                    3 <= i - 1 < 3 * segments,
            ;
        }
        if 4 <= j && j < 3 * segments + 1 {
            assert((j - 1) / 3 >= 0) by (nonlinear_arith)
                requires
                    3 <= j - 1,
            ;
        }
    }
}

/// Every interior span boundary `t` (between the first and last pieces)
/// appears exactly three times, at positions `3t + 1` to `3t + 3`, so the
/// pieces join with only positional continuity guaranteed.
pub proof fn interior_knots_are_tripled(segments: int, t: int, r: int)
    requires
        1 <= t < segments,
        0 <= r < 3,
    ensures
        helix_knot(segments, 3 * t + 1 + r) == t,
        helix_knot(segments, 3 * t) < t,
        helix_knot(segments, 3 * t + 4) > t,
{
    assert((3 * t + r) / 3 == t) by (nonlinear_arith)
        requires
            0 <= r < 3,
    ;
    if t >= 2 {
        assert((3 * t - 1) / 3 == t - 1) by (nonlinear_arith)
            requires
                t >= 2,
        ;
    }
    if t + 1 < segments {
        assert((3 * t + 3) / 3 == t + 1) by (nonlinear_arith);
    }
}

} // verus!
