//! NURBS curves in space: the shape of their data and the edits that only
//! rearrange it.
//!
//! The points, knots and weights are carried, never computed with, so they
//! are type parameters here: `P` for a control point and `S` for a knot or a
//! weight. What a curve needs of its counts (degree at least one, more
//! control points than the degree, one knot per control point plus the
//! order, one weight per control point) is checked here; what it needs of
//! the numbers themselves (finite values, positive weights, knots that never
//! decrease) is checked by whoever holds the numbers.

use vstd::prelude::*;

verus! {

/// A NURBS curve in space.
pub struct NurbsCurve3<P, S> {
    degree: usize,
    knots: Vec<S>,
    control_points: Vec<P>,
    weights: Vec<S>,
    closed: bool,
}

/// Whether counts describe a curve: a degree of at least one, more control
/// points than the degree, `controls + degree + 1` knots and one weight per
/// control point.
pub open spec fn counts_fit(degree: nat, controls: nat, knots: nat, weights: nat) -> bool {
    &&& degree >= 1
    &&& controls > degree
    &&& knots == controls + degree + 1
    &&& weights == controls
}

/// The knot removed with control vertex `index` when the degree stays: the
/// one half an order past it, kept clear of the clamped ends.
pub open spec fn knot_removed_with(index: int, degree: int, count: int) -> int {
    let wanted = index + (degree + 1) / 2;
    if wanted < degree + 1 {
        degree + 1
    } else if wanted > count - 1 {
        count - 1
    } else {
        wanted
    }
}

/// An element-for-element copy.
fn copied<T: Copy>(items: &Vec<T>) -> (copy: Vec<T>)
    ensures
        copy@ == items@,
{
    let mut copy: Vec<T> = Vec::new();
    let mut i: usize = 0;
    while i < items.len()
        invariant
            i <= items@.len(),
            copy@ == items@.take(i as int),
        decreases items@.len() - i,
    {
        copy.push(items[i]);
        assert(items@.take(i + 1) =~= items@.take(i as int).push(items@[i as int]));
        i = i + 1;
    }
    assert(items@.take(items@.len() as int) =~= items@);
    copy
}

/// The items in the opposite order.
fn backwards<T: Copy>(items: &Vec<T>) -> (reversed: Vec<T>)
    ensures
        reversed@ == items@.reverse(),
{
    let n = items.len();
    let mut reversed: Vec<T> = Vec::new();
    let mut i: usize = 0;
    while i < n
        invariant
            n == items@.len(),
            i <= n,
            reversed@.len() == i,
            forall|j: int| 0 <= j < i ==> #[trigger] reversed@[j] == items@[n - 1 - j],
        decreases n - i,
    {
        reversed.push(items[n - 1 - i]);
        i = i + 1;
    }
    assert(reversed@ =~= items@.reverse());
    reversed
}

impl<P, S> NurbsCurve3<P, S> {
    pub closed spec fn spec_degree(self) -> nat {
        self.degree as nat
    }

    pub closed spec fn spec_knots(self) -> Seq<S> {
        self.knots@
    }

    pub closed spec fn spec_control_points(self) -> Seq<P> {
        self.control_points@
    }

    pub closed spec fn spec_weights(self) -> Seq<S> {
        self.weights@
    }

    pub closed spec fn spec_closed(self) -> bool {
        self.closed
    }

    /// The counts of a curve fit together.
    pub open spec fn wf(self) -> bool {
        counts_fit(
            self.spec_degree(),
            self.spec_control_points().len(),
            self.spec_knots().len(),
            self.spec_weights().len(),
        )
    }

    /// An open curve from its parts, or `None` when the counts do not fit
    /// together.
    pub fn from_parts(degree: usize, control_points: Vec<P>, knots: Vec<S>, weights: Vec<S>) -> (curve:
        Option<Self>)
        ensures
            curve is Some <==> counts_fit(
                degree as nat,
                control_points@.len(),
                knots@.len(),
                weights@.len(),
            ),
            curve matches Some(made) ==> {
                &&& made.wf()
                &&& made.spec_degree() == degree
                &&& made.spec_control_points() == control_points@
                &&& made.spec_knots() == knots@
                &&& made.spec_weights() == weights@
                &&& !made.spec_closed()
            },
    {
        if degree == 0 || control_points.len() <= degree || weights.len() != control_points.len() {
            return None;
        }
        if knots.len() < degree + 1 || knots.len() - (degree + 1) != control_points.len() {
            return None;
        }
        Some(NurbsCurve3 { degree, knots, control_points, weights, closed: false })
    }

    /// The same curve, marked periodic or not.
    pub fn with_periodicity(self, closed: bool) -> (curve: Self)
        ensures
            curve.spec_degree() == self.spec_degree(),
            curve.spec_control_points() == self.spec_control_points(),
            curve.spec_knots() == self.spec_knots(),
            curve.spec_weights() == self.spec_weights(),
            curve.spec_closed() == closed,
    {
        NurbsCurve3 { closed, ..self }
    }

    /// Whether the curve is periodic.
    pub fn periodicity(&self) -> (closed: bool)
        ensures
            closed == self.spec_closed(),
    {
        self.closed
    }

    /// The degree of the curve.
    pub fn degree(&self) -> (degree: usize)
        ensures
            degree == self.spec_degree(),
    {
        self.degree
    }

    /// Its control points, in order.
    pub fn control_points(&self) -> (points: &[P])
        ensures
            points@ == self.spec_control_points(),
    {
        self.control_points.as_slice()
    }

    /// Its knot vector.
    pub fn knots(&self) -> (knots: &[S])
        ensures
            knots@ == self.spec_knots(),
    {
        self.knots.as_slice()
    }

    /// Its weights.
    pub fn weights(&self) -> (weights: &[S])
        ensures
            weights@ == self.spec_weights(),
    {
        self.weights.as_slice()
    }

    /// The knot range the curve is defined over: the knot at the degree and
    /// the knot at the control point count.
    pub fn domain(&self) -> (range: (S, S))
        where
            S: Copy,
        requires
            self.wf(),
        ensures
            range.0 == self.spec_knots()[self.spec_degree() as int],
            range.1 == self.spec_knots()[self.spec_control_points().len() as int],
    {
        (self.knots[self.degree], self.knots[self.control_points.len()])
    }

    /// `self` is `original` with its parameter direction reversed: same
    /// degree and periodicity, control points and weights backwards, and
    /// each knot the mirror of the knot at the opposite position.
    pub open spec fn reverses<F: Fn(S) -> S>(self, original: Self, mirror: F) -> bool {
        &&& self.spec_degree() == original.spec_degree()
        &&& self.spec_closed() == original.spec_closed()
        &&& self.spec_control_points() == original.spec_control_points().reverse()
        &&& self.spec_weights() == original.spec_weights().reverse()
        &&& self.spec_knots().len() == original.spec_knots().len()
        &&& forall|i: int|
            0 <= i < original.spec_knots().len() ==> mirror.ensures(
                (original.spec_knots()[original.spec_knots().len() - 1 - i],),
                #[trigger] self.spec_knots()[i],
            )
    }

    /// Reverses the parameter direction without changing the spatial curve:
    /// control points and weights run backwards, and knot `i` of the result
    /// is knot `len - 1 - i` mirrored about the domain's middle. The mirror
    /// (`v` to `start + end - v`) is the caller's arithmetic, handed over as
    /// `mirror`. Periodicity is kept.
    pub fn reversed<F: Fn(S) -> S>(&self, mirror: F) -> (curve: Self)
        where
            P: Copy,
            S: Copy,
        requires
            self.wf(),
            forall|v: S| #[trigger] mirror.requires((v,)),
        ensures
            curve.wf(),
            curve.reverses(*self, mirror),
    {
        let control_points = backwards(&self.control_points);
        let weights = backwards(&self.weights);
        let n = self.knots.len();
        let mut knots: Vec<S> = Vec::new();
        let mut i: usize = 0;
        while i < n
            invariant
                n == self.knots@.len(),
                i <= n,
                knots@.len() == i,
                forall|v: S| #[trigger] mirror.requires((v,)),
                forall|j: int| 0 <= j < i ==> mirror.ensures((self.knots@[n - 1 - j],), #[trigger] knots@[j]),
            decreases n - i,
        {
            knots.push(mirror(self.knots[n - 1 - i]));
            i = i + 1;
        }
        NurbsCurve3 { degree: self.degree, knots, control_points, weights, closed: self.closed }
    }

    /// Deletes one control vertex from an open clamped curve, intentionally
    /// changing its shape, together with its weight and one knot; when fewer
    /// vertices than the order would remain, the degree drops by one and the
    /// first and last knots go instead.
    ///
    /// Whether the curve is clamped (its first `degree + 1` knots equal its
    /// start and its last `degree + 1` its end) is a comparison of knot
    /// values, which the caller makes and passes as `clamped`. `None` for a
    /// periodic curve, an unclamped one, one with two or fewer vertices, or an
    /// index past the end.
    pub fn without_control_vertex(&self, index: usize, clamped: bool) -> (curve: Option<Self>)
        where
            P: Copy,
            S: Copy,
        requires
            self.wf(),
        ensures
            curve is Some <==> (!self.spec_closed() && self.spec_control_points().len() > 2 && index
                < self.spec_control_points().len() && clamped),
            curve matches Some(edited) ==> {
                let count = self.spec_control_points().len() as int;
                let degree = self.spec_degree() as int;
                &&& edited.wf()
                &&& !edited.spec_closed()
                &&& edited.spec_control_points() == self.spec_control_points().remove(index as int)
                &&& edited.spec_weights() == self.spec_weights().remove(index as int)
                &&& if count - 1 <= degree {
                    &&& edited.spec_degree() == degree - 1
                    &&& edited.spec_knots() == self.spec_knots().subrange(
                        1,
                        self.spec_knots().len() - 1,
                    )
                } else {
                    &&& edited.spec_degree() == degree
                    &&& edited.spec_knots() == self.spec_knots().remove(
                        knot_removed_with(index as int, degree, count),
                    )
                    &&& edited.spec_knots().subrange(0, degree + 1) == self.spec_knots().subrange(
                        0,
                        degree + 1,
                    )
                    &&& edited.spec_knots().subrange(count - 1, count + degree)
                        == self.spec_knots().subrange(count, count + degree + 1)
                }
            },
    {
        let count = self.control_points.len();
        let degree = self.degree;
        let knot_count = self.knots.len();
        assert(knot_count == count + degree + 1);
        if self.closed || count <= 2 || index >= count || !clamped {
            return None;
        }
        let mut controls = copied(&self.control_points);
        let mut weights = copied(&self.weights);
        let mut knots = copied(&self.knots);
        controls.remove(index);
        weights.remove(index);
        let degree = if controls.len() <= degree {
            knots.pop();
            knots.remove(0);
            degree - 1
        } else {
            let wanted = index + (degree + 1) / 2;
            let at = if wanted < degree + 1 {
                degree + 1
            } else if wanted > count - 1 {
                count - 1
            } else {
                wanted
            };
            proof {
                removed_knot_is_interior(index as int, degree as int, count as int);
                deleting_a_vertex_keeps_the_clamped_ends(knots@, index as int, degree as int, count as int);
            }
            knots.remove(at);
            degree
        };
        Some(NurbsCurve3 { degree, knots, control_points: controls, weights, closed: false })
    }
}

/// The control polygon of a periodic curve, before its two cuts are
/// inserted: the supplied points three times over and `degree` more,
/// starting `degree` points before the first so that the seam follows the
/// final `degree` vertices and wraps to the first.
pub fn periodic_control_polygon<P: Copy>(points: &[P], degree: usize) -> (controls: Vec<P>)
    requires
        points@.len() > degree,
        4 * points@.len() + degree <= usize::MAX,
    ensures
        controls@.len() == 3 * points@.len() + degree,
        forall|i: int|
            0 <= i < controls@.len() ==> #[trigger] controls@[i] == points@[(i + points@.len() - degree)
                % (points@.len() as int)],
{
    let count = points.len();
    let total = 3 * count + degree;
    let mut controls: Vec<P> = Vec::new();
    let mut index: usize = 0;
    while index < total
        invariant
            count == points@.len(),
            count > degree,
            total == 3 * count + degree,
            4 * count + degree <= usize::MAX,
            index <= total,
            controls@.len() == index,
            forall|i: int|
                0 <= i < index ==> #[trigger] controls@[i] == points@[(i + count - degree) % (
                count as int)],
        decreases total - index,
    {
        controls.push(points[(index + count - degree) % count]);
        index = index + 1;
    }
    controls
}

/// Whether a control net is a rectangle of rows, large enough for the
/// degrees: at least one row, every row as long as the first, more rows
/// than the `u` degree and more columns than the `v` degree, and both
/// degrees at least one.
pub open spec fn net_fits<P>(net: Seq<Vec<P>>, u_degree: nat, v_degree: nat) -> bool {
    &&& net.len() >= 1
    &&& u_degree >= 1
    &&& v_degree >= 1
    &&& net.len() > u_degree
    &&& net[0]@.len() > v_degree
    &&& forall|i: int| 0 <= i < net.len() ==> (#[trigger] net[i])@.len() == net[0]@.len()
}

/// The rows and columns of a control net, or `None` when it is ragged,
/// empty, or too small for the degrees. A ragged net is refused rather than
/// padded: rows of different lengths are not a tensor product.
pub fn control_net_shape<P>(net: &Vec<Vec<P>>, u_degree: usize, v_degree: usize) -> (shape: Option<(usize, usize)>)
    ensures
        shape is Some <==> net_fits(net@, u_degree as nat, v_degree as nat),
        shape matches Some(found) ==> found.0 == net@.len() && found.1 == net@[0]@.len(),
{
    let rows = net.len();
    if rows == 0 {
        return None;
    }
    let columns = net[0].len();
    if rows <= u_degree || columns <= v_degree || u_degree == 0 || v_degree == 0 {
        return None;
    }
    let mut i: usize = 0;
    while i < rows
        invariant
            rows == net@.len(),
            columns == net@[0]@.len(),
            i <= rows,
            forall|j: int| 0 <= j < i ==> (#[trigger] net@[j])@.len() == columns,
        decreases rows - i,
    {
        if net[i].len() != columns {
            return None;
        }
        i = i + 1;
    }
    Some((rows, columns))
}

proof fn lemma_wrap_index(index: int, period: int)
    requires
        0 <= index < 2 * period,
    ensures
        index % period == if index < period {
            index
        } else {
            index - period
        },
{
    if index < period {
        assert(index % period == index) by (nonlinear_arith)
            requires
                0 <= index < period,
        ;
    } else {
        assert(index % period == index - period) by (nonlinear_arith)
            requires
                period <= index < 2 * period,
        ;
    }
}

/// The control net of a periodic surface: along each periodic direction the
/// first `degree` rows (or columns) are repeated after the last, so that
/// entry `[i][j]` is the original's `[i mod rows][j mod columns]`.
pub fn periodic_control_net<P: Copy>(
    net: &Vec<Vec<P>>,
    u_degree: usize,
    v_degree: usize,
    u_periodic: bool,
    v_periodic: bool,
) -> (wrapped: Vec<Vec<P>>)
    requires
        net_fits(net@, u_degree as nat, v_degree as nat),
        net@.len() + u_degree <= usize::MAX,
        net@[0]@.len() + v_degree <= usize::MAX,
    ensures
        wrapped@.len() == net@.len() + if u_periodic {
            u_degree as int
        } else {
            0
        },
        forall|i: int|
            0 <= i < wrapped@.len() ==> (#[trigger] wrapped@[i])@.len() == net@[0]@.len() + if v_periodic {
                v_degree as int
            } else {
                0
            },
        forall|i: int, j: int|
            0 <= i < wrapped@.len() && 0 <= j < wrapped@[i]@.len() ==> #[trigger] wrapped@[i]@[j]
                == net@[i % (net@.len() as int)]@[j % (net@[0]@.len() as int)],
{
    let rows = net.len();
    let columns = net[0].len();
    let total_rows = if u_periodic {
        rows + u_degree
    } else {
        rows
    };
    let total_columns = if v_periodic {
        columns + v_degree
    } else {
        columns
    };
    let mut wrapped: Vec<Vec<P>> = Vec::new();
    let mut i: usize = 0;
    while i < total_rows
        invariant
            rows == net@.len(),
            columns == net@[0]@.len(),
            net_fits(net@, u_degree as nat, v_degree as nat),
            total_rows <= 2 * rows,
            total_columns <= 2 * columns,
            i <= total_rows,
            wrapped@.len() == i,
            forall|r: int| 0 <= r < i ==> (#[trigger] wrapped@[r])@.len() == total_columns,
            forall|r: int, c: int|
                0 <= r < i && 0 <= c < total_columns ==> #[trigger] wrapped@[r]@[c] == net@[r % (
                rows as int)]@[c % (columns as int)],
        decreases total_rows - i,
    {
        let source = if i < rows {
            i
        } else {
            i - rows
        };
        proof {
            lemma_wrap_index(i as int, rows as int);
        }
        let mut row: Vec<P> = Vec::new();
        let mut j: usize = 0;
        while j < total_columns
            invariant
                rows == net@.len(),
                columns == net@[0]@.len(),
                net_fits(net@, u_degree as nat, v_degree as nat),
                source < rows,
                total_columns <= 2 * columns,
                j <= total_columns,
                row@.len() == j,
                forall|c: int| 0 <= c < j ==> #[trigger] row@[c] == net@[source as int]@[c % (
                    columns as int)],
            decreases total_columns - j,
        {
            let column = if j < columns {
                j
            } else {
                j - columns
            };
            proof {
                lemma_wrap_index(j as int, columns as int);
            }
            assert(net@[source as int]@.len() == columns);
            row.push(net[source][column]);
            j = j + 1;
        }
        wrapped.push(row);
        i = i + 1;
    }
    wrapped
}

/// Whether every row has `len` entries.
pub open spec fn rows_of_len<T>(rows: Seq<Vec<T>>, len: nat) -> bool {
    forall|i: int| 0 <= i < rows.len() ==> (#[trigger] rows[i])@.len() == len
}

fn all_rows_have_len<T>(rows: &Vec<Vec<T>>, len: usize) -> (all: bool)
    ensures
        all == rows_of_len(rows@, len as nat),
{
    let mut i: usize = 0;
    while i < rows.len()
        invariant
            i <= rows@.len(),
            forall|j: int| 0 <= j < i ==> (#[trigger] rows@[j])@.len() == len,
        decreases rows@.len() - i,
    {
        if rows[i].len() != len {
            return false;
        }
        i = i + 1;
    }
    true
}

/// A NURBS surface in space. The control net is stored row by row:
/// `control_points[i][j]` is the point at `u` index `i` and `v` index `j`.
pub struct NurbsSurface3<P, S> {
    u_degree: usize,
    v_degree: usize,
    u_knots: Vec<S>,
    v_knots: Vec<S>,
    control_points: Vec<Vec<P>>,
    weights: Vec<Vec<S>>,
    u_closed: bool,
    v_closed: bool,
    v_reversed: bool,
}

/// Whether the counts of a surface fit together: a rectangular net large
/// enough for both degrees, a weight for every control point, and one knot
/// per row (column) plus the order along each direction.
pub open spec fn surface_counts_fit<P, S>(
    u_degree: nat,
    v_degree: nat,
    net: Seq<Vec<P>>,
    u_knots: nat,
    v_knots: nat,
    weights: Seq<Vec<S>>,
) -> bool {
    &&& net_fits(net, u_degree, v_degree)
    &&& weights.len() == net.len()
    &&& rows_of_len(weights, net[0]@.len())
    &&& u_knots == net.len() + u_degree + 1
    &&& v_knots == net[0]@.len() + v_degree + 1
}

impl<P, S> NurbsSurface3<P, S> {
    pub closed spec fn spec_degrees(self) -> (nat, nat) {
        (self.u_degree as nat, self.v_degree as nat)
    }

    pub closed spec fn spec_u_knots(self) -> Seq<S> {
        self.u_knots@
    }

    pub closed spec fn spec_v_knots(self) -> Seq<S> {
        self.v_knots@
    }

    pub closed spec fn spec_control_points(self) -> Seq<Vec<P>> {
        self.control_points@
    }

    pub closed spec fn spec_weights(self) -> Seq<Vec<S>> {
        self.weights@
    }

    pub closed spec fn spec_periodicity(self) -> (bool, bool) {
        (self.u_closed, self.v_closed)
    }

    pub closed spec fn spec_v_reversed(self) -> bool {
        self.v_reversed
    }

    /// The counts of the surface fit together.
    pub open spec fn wf(self) -> bool {
        surface_counts_fit(
            self.spec_degrees().0,
            self.spec_degrees().1,
            self.spec_control_points(),
            self.spec_u_knots().len(),
            self.spec_v_knots().len(),
            self.spec_weights(),
        )
    }

    /// A surface from its parts, or `None` when the net is ragged or too
    /// small or the knot or weight counts do not fit it. `seams` says, as the
    /// caller measured, whether the first and last rows coincide and whether
    /// the first and last columns do; the surface is periodic along each
    /// direction where they do.
    pub fn from_parts(
        u_degree: usize,
        v_degree: usize,
        control_points: Vec<Vec<P>>,
        u_knots: Vec<S>,
        v_knots: Vec<S>,
        weights: Vec<Vec<S>>,
        seams: (bool, bool),
    ) -> (surface: Option<Self>)
        ensures
            surface is Some <==> surface_counts_fit(
                u_degree as nat,
                v_degree as nat,
                control_points@,
                u_knots@.len(),
                v_knots@.len(),
                weights@,
            ),
            surface matches Some(made) ==> {
                &&& made.wf()
                &&& made.spec_degrees() == (u_degree as nat, v_degree as nat)
                &&& made.spec_control_points() == control_points@
                &&& made.spec_u_knots() == u_knots@
                &&& made.spec_v_knots() == v_knots@
                &&& made.spec_weights() == weights@
                &&& made.spec_periodicity() == seams
                &&& !made.spec_v_reversed()
            },
    {
        let (rows, columns) = match control_net_shape(&control_points, u_degree, v_degree) {
            Some(shape) => shape,
            None => {
                return None;
            },
        };
        if weights.len() != rows || !all_rows_have_len(&weights, columns) {
            return None;
        }
        if u_knots.len() < u_degree + 1 || u_knots.len() - (u_degree + 1) != rows {
            return None;
        }
        if v_knots.len() < v_degree + 1 || v_knots.len() - (v_degree + 1) != columns {
            return None;
        }
        Some(
            NurbsSurface3 {
                u_degree,
                v_degree,
                u_knots,
                v_knots,
                control_points,
                weights,
                u_closed: seams.0,
                v_closed: seams.1,
                v_reversed: false,
            },
        )
    }

    /// The same surface, additionally periodic along each direction asked
    /// for; a direction already periodic stays so.
    pub fn with_periodicity(self, u_closed: bool, v_closed: bool) -> (surface: Self)
        ensures
            surface.spec_periodicity() == (self.spec_periodicity().0 || u_closed, self.spec_periodicity().1
                || v_closed),
            surface.spec_degrees() == self.spec_degrees(),
            surface.spec_control_points() == self.spec_control_points(),
            surface.spec_u_knots() == self.spec_u_knots(),
            surface.spec_v_knots() == self.spec_v_knots(),
            surface.spec_weights() == self.spec_weights(),
            surface.spec_v_reversed() == self.spec_v_reversed(),
    {
        let u = self.u_closed || u_closed;
        let v = self.v_closed || v_closed;
        NurbsSurface3 { u_closed: u, v_closed: v, ..self }
    }

    /// The same surface with its `v` direction marked reversed or not.
    pub fn with_v_reversed(self, reversed: bool) -> (surface: Self)
        ensures
            surface.spec_v_reversed() == reversed,
            surface.spec_periodicity() == self.spec_periodicity(),
            surface.spec_degrees() == self.spec_degrees(),
            surface.spec_control_points() == self.spec_control_points(),
            surface.spec_u_knots() == self.spec_u_knots(),
            surface.spec_v_knots() == self.spec_v_knots(),
            surface.spec_weights() == self.spec_weights(),
    {
        NurbsSurface3 { v_reversed: reversed, ..self }
    }

    /// Whether the `v` direction is reversed.
    pub fn v_reversed(&self) -> (reversed: bool)
        ensures
            reversed == self.spec_v_reversed(),
    {
        self.v_reversed
    }

    /// Whether the surface is periodic in `u` and in `v`.
    pub fn periodicity(&self) -> (closed: [bool; 2])
        ensures
            closed[0] == self.spec_periodicity().0,
            closed[1] == self.spec_periodicity().1,
    {
        [self.u_closed, self.v_closed]
    }

    /// The degrees along `u` and `v`.
    pub fn degrees(&self) -> (degrees: (usize, usize))
        ensures
            degrees.0 == self.spec_degrees().0,
            degrees.1 == self.spec_degrees().1,
    {
        (self.u_degree, self.v_degree)
    }

    /// The knot vectors along `u` and `v`.
    pub fn knots(&self) -> (knots: (&[S], &[S]))
        ensures
            knots.0@ == self.spec_u_knots(),
            knots.1@ == self.spec_v_knots(),
    {
        (self.u_knots.as_slice(), self.v_knots.as_slice())
    }

    /// The control net, row by row.
    pub fn control_points(&self) -> (net: &[Vec<P>])
        ensures
            net@ == self.spec_control_points(),
    {
        self.control_points.as_slice()
    }

    /// The weights, row by row.
    pub fn weights(&self) -> (weights: &[Vec<S>])
        ensures
            weights@ == self.spec_weights(),
    {
        self.weights.as_slice()
    }

    /// The knot ranges the surface is defined over, `u` then `v`: along each
    /// direction, the knot at the degree and the knot at the row (column)
    /// count.
    pub fn domain(&self) -> (range: ((S, S), (S, S)))
        where
            S: Copy,
        requires
            self.wf(),
        ensures
            range.0.0 == self.spec_u_knots()[self.spec_degrees().0 as int],
            range.0.1 == self.spec_u_knots()[self.spec_control_points().len() as int],
            range.1.0 == self.spec_v_knots()[self.spec_degrees().1 as int],
            range.1.1 == self.spec_v_knots()[self.spec_control_points()[0]@.len() as int],
    {
        let rows = self.control_points.len();
        let columns = self.control_points[0].len();
        (
            (self.u_knots[self.u_degree], self.u_knots[rows]),
            (self.v_knots[self.v_degree], self.v_knots[columns]),
        )
    }
}

/// Reversing a curve twice gives back its degree, periodicity, control
/// points, weights and knots, when mirroring a knot twice returns it.
pub proof fn reversing_a_curve_twice_restores_it<P, S, F: Fn(S) -> S>(
    original: NurbsCurve3<P, S>,
    once: NurbsCurve3<P, S>,
    twice: NurbsCurve3<P, S>,
    mirror: F,
)
    requires
        once.reverses(original, mirror),
        twice.reverses(once, mirror),
        forall|a: S, b: S, c: S|
            #[trigger] mirror.ensures((a,), b) && #[trigger] mirror.ensures((b,), c) ==> c == a,
    ensures
        twice.spec_degree() == original.spec_degree(),
        twice.spec_closed() == original.spec_closed(),
        twice.spec_control_points() == original.spec_control_points(),
        twice.spec_weights() == original.spec_weights(),
        twice.spec_knots() == original.spec_knots(),
{
    assert(original.spec_control_points().reverse().reverse() =~= original.spec_control_points());
    assert(original.spec_weights().reverse().reverse() =~= original.spec_weights());
    let n = original.spec_knots().len() as int;
    assert forall|i: int| 0 <= i < n implies #[trigger] twice.spec_knots()[i] == original.spec_knots()[i] by {
        assert(mirror.ensures((once.spec_knots()[n - 1 - i],), twice.spec_knots()[i]));
        assert(mirror.ensures((original.spec_knots()[n - 1 - (n - 1 - i)],), once.spec_knots()[n - 1 - i]));
    }
    assert(twice.spec_knots() =~= original.spec_knots());
}

/// The knot that goes with a deleted vertex, when the degree stays, is an
/// interior one: past the `degree + 1` clamped start knots and before the
/// `degree + 1` clamped end knots.
pub proof fn removed_knot_is_interior(index: int, degree: int, count: int)
    requires
        degree >= 1,
        count - 1 > degree,
        0 <= index < count,
    ensures
        degree + 1 <= knot_removed_with(index, degree, count) <= count - 1,
{
}

/// Deleting a vertex without lowering the degree keeps a clamped curve
/// clamped: the first `degree + 1` knots and the last `degree + 1` knots
/// are the original's.
pub proof fn deleting_a_vertex_keeps_the_clamped_ends<S>(knots: Seq<S>, index: int, degree: int, count: int)
    requires
        degree >= 1,
        count - 1 > degree,
        0 <= index < count,
        knots.len() == count + degree + 1,
    ensures
        knots.remove(knot_removed_with(index, degree, count)).subrange(0, degree + 1)
            == knots.subrange(0, degree + 1),
        knots.remove(knot_removed_with(index, degree, count)).subrange(count - 1, count + degree)
            == knots.subrange(count, count + degree + 1),
{
    removed_knot_is_interior(index, degree, count);
    let k = knot_removed_with(index, degree, count);
    assert(knots.remove(k).subrange(0, degree + 1) =~= knots.subrange(0, degree + 1));
    assert(knots.remove(k).subrange(count - 1, count + degree) =~= knots.subrange(
        count,
        count + degree + 1,
    ));
}

/// When the degree stays, the knot that goes with vertex `index` sits half
/// an order past it, `index + (degree + 1) / 2`, unless that would reach
/// into a clamped end; then the nearest interior knot goes instead. The
/// position never moves backwards as the index grows.
pub proof fn removed_knot_sits_half_an_order_past_the_vertex(index: int, other: int, degree: int, count: int)
    requires
        degree >= 1,
        count - 1 > degree,
        0 <= index <= other < count,
    ensures
        degree + 1 <= index + (degree + 1) / 2 <= count - 1 ==> knot_removed_with(index, degree, count)
            == index + (degree + 1) / 2,
        index + (degree + 1) / 2 < degree + 1 ==> knot_removed_with(index, degree, count) == degree + 1,
        index + (degree + 1) / 2 > count - 1 ==> knot_removed_with(index, degree, count) == count - 1,
        knot_removed_with(index, degree, count) <= knot_removed_with(other, degree, count),
{
}

} // verus!
