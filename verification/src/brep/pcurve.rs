//! A space curve seen in a surface's own coordinates: which of a surface's
//! parameters wrap, and how a walk along an edge that passes through a pole
//! gets its missing longitudes.

use vstd::prelude::*;

verus! {

/// The kinds of surface a face can lie on.
#[derive(Debug, Clone, Copy, PartialEq, Eq, Structural)]
pub enum SurfaceKind {
    Plane,
    Cylinder,
    Cone,
    Sphere,
    Torus,
    /// A spline surface, with whether it is periodic in `u` and in `v`.
    Nurbs { u_periodic: bool, v_periodic: bool },
}

/// Which of a surface's two parameters wrap: `u` runs round every closed
/// surface, `v` only round a torus, and a spline's wrap where it is
/// periodic. A plane's do not wrap at all.
pub open spec fn spec_wraps(surface: SurfaceKind) -> (bool, bool) {
    match surface {
        SurfaceKind::Plane => (false, false),
        SurfaceKind::Cylinder | SurfaceKind::Cone | SurfaceKind::Sphere => (true, false),
        SurfaceKind::Torus => (true, true),
        SurfaceKind::Nurbs { u_periodic, v_periodic } => (u_periodic, v_periodic),
    }
}

/// A plane never wraps; a cylinder, cone or sphere wraps in `u` only; a
/// torus wraps both ways; a spline wraps exactly along its periodic
/// directions.
pub proof fn only_closed_surfaces_wrap(u_periodic: bool, v_periodic: bool)
    ensures
        spec_wraps(SurfaceKind::Plane) == (false, false),
        spec_wraps(SurfaceKind::Cylinder) == (true, false),
        spec_wraps(SurfaceKind::Cone) == (true, false),
        spec_wraps(SurfaceKind::Sphere) == (true, false),
        spec_wraps(SurfaceKind::Torus) == (true, true),
        spec_wraps(SurfaceKind::Nurbs { u_periodic, v_periodic }) == (u_periodic, v_periodic),
{
}

/// Whether `u` and `v` wrap on this kind of surface.
pub fn wraps(surface: SurfaceKind) -> (wrapping: (bool, bool))
    ensures
        wrapping == spec_wraps(surface),
{
    match surface {
        SurfaceKind::Plane => (false, false),
        SurfaceKind::Cylinder | SurfaceKind::Cone | SurfaceKind::Sphere => (true, false),
        SurfaceKind::Torus => (true, true),
        SurfaceKind::Nurbs { u_periodic, v_periodic } => (u_periodic, v_periodic),
    }
}

/// The nearest set sample before position `i`.
pub open spec fn last_set_before<S>(raw: Seq<Option<S>>, i: int) -> Option<S>
    decreases i,
{
    if i <= 0 || i > raw.len() {
        None
    } else if raw[i - 1] is Some {
        raw[i - 1]
    } else {
        last_set_before(raw, i - 1)
    }
}

/// The nearest set sample at or after position `i`.
pub open spec fn first_set_from<S>(raw: Seq<Option<S>>, i: int) -> Option<S>
    decreases raw.len() - i,
{
    if i < 0 || i >= raw.len() {
        None
    } else if raw[i] is Some {
        raw[i]
    } else {
        first_set_from(raw, i + 1)
    }
}

/// The value a sample ends with: its own when set; otherwise the nearest
/// set one before it; otherwise, at the start of the walk, the first set one
/// after it.
pub open spec fn filled_sample<S>(raw: Seq<Option<S>>, i: int) -> Option<S> {
    if raw[i] is Some {
        raw[i]
    } else if last_set_before(raw, i) is Some {
        last_set_before(raw, i)
    } else {
        first_set_from(raw, i + 1)
    }
}

proof fn lemma_first_set_from_none<S>(raw: Seq<Option<S>>, i: int)
    requires
        0 <= i <= raw.len(),
    ensures
        first_set_from(raw, i) is None <==> forall|j: int| i <= j < raw.len() ==> raw[j] is None,
    decreases raw.len() - i,
{
    if i < raw.len() {
        lemma_first_set_from_none(raw, i + 1);
    }
}

proof fn lemma_last_set_before_none<S>(raw: Seq<Option<S>>, i: int)
    requires
        0 <= i <= raw.len(),
    ensures
        last_set_before(raw, i) is None <==> forall|j: int| 0 <= j < i ==> raw[j] is None,
    decreases i,
{
    if i > 0 {
        lemma_last_set_before_none(raw, i - 1);
    }
}

/// Fills the longitudes a walk through a pole left unset.
///
/// Longitude is singular at a pole, so a sample taken there has none. Each
/// such sample takes the longitude of the nearest set sample before it, the
/// meridian the edge arrived on; samples at the start of the walk, before
/// any set one, take the first set longitude after them. `None` when there
/// is no set longitude at all to take one from.
pub fn fill_unset_longitudes<S: Copy>(raw: &Vec<Option<S>>) -> (filled: Option<Vec<S>>)
    ensures
        filled is None <==> (raw@.len() > 0 && forall|j: int| 0 <= j < raw@.len() ==> raw@[j] is None),
        filled matches Some(values) ==> values@.len() == raw@.len() && forall|i: int|
            0 <= i < raw@.len() ==> Some(#[trigger] values@[i]) == filled_sample(raw@, i),
{
    let n = raw.len();
    let mut first: Option<S> = None;
    let mut i: usize = n;
    while i > 0
        invariant
            i <= n,
            n == raw@.len(),
            first == first_set_from(raw@, i as int),
        decreases i,
    {
        i = i - 1;
        if raw[i].is_some() {
            first = raw[i];
        }
    }
    proof {
        lemma_first_set_from_none(raw@, 0);
    }
    if n > 0 && first.is_none() {
        return None;
    }
    let mut values: Vec<S> = Vec::new();
    let mut last: Option<S> = None;
    let mut k: usize = 0;
    while k < n
        invariant
            k <= n,
            n == raw@.len(),
            n > 0 ==> first is Some,
            first == first_set_from(raw@, 0),
            last == last_set_before(raw@, k as int),
            values@.len() == k,
            forall|j: int| 0 <= j < k ==> Some(#[trigger] values@[j]) == filled_sample(raw@, j),
        decreases n - k,
    {
        let value = match raw[k] {
            Some(set) => set,
            None => match last {
                Some(before) => before,
                None => {
                    proof {
                        lemma_last_set_before_none(raw@, k as int);
                        lemma_first_set_from_none(raw@, k + 1);
                        lemma_first_set_from_none(raw@, 0);
                        if first_set_from(raw@, k + 1) is None {
                            assert(forall|j: int| 0 <= j < raw@.len() ==> raw@[j] is None);
                        }
                        lemma_first_equals_after_unset_prefix(raw@, k as int);
                    }
                    first.unwrap()
                },
            },
        };
        values.push(value);
        if raw[k].is_some() {
            last = raw[k];
        }
        k = k + 1;
    }
    Some(values)
}

proof fn lemma_first_equals_after_unset_prefix<S>(raw: Seq<Option<S>>, k: int)
    requires
        0 <= k < raw.len(),
        forall|j: int| 0 <= j <= k ==> raw[j] is None,
    ensures
        first_set_from(raw, 0) == first_set_from(raw, k + 1),
    decreases k,
{
    if k > 0 {
        lemma_first_equals_after_unset_prefix(raw, k - 1);
    }
    lemma_first_skips_unset(raw, 0, k + 1);
}

proof fn lemma_first_skips_unset<S>(raw: Seq<Option<S>>, from: int, to: int)
    requires
        0 <= from <= to <= raw.len(),
        forall|j: int| from <= j < to ==> raw[j] is None,
    ensures
        first_set_from(raw, from) == first_set_from(raw, to),
    decreases to - from,
{
    if from < to {
        lemma_first_skips_unset(raw, from + 1, to);
    }
}

proof fn lemma_last_set_skips_unset<S>(raw: Seq<Option<S>>, j: int, i: int)
    requires
        0 <= j < i <= raw.len(),
        raw[j] is Some,
        forall|l: int| j < l < i ==> raw[l] is None,
    ensures
        last_set_before(raw, i) == raw[j],
    decreases i - j,
{
    if i > j + 1 {
        lemma_last_set_skips_unset(raw, j, i - 1);
    }
}

/// A set longitude is kept as it is.
pub proof fn set_samples_are_kept<S>(raw: Seq<Option<S>>, i: int)
    requires
        0 <= i < raw.len(),
        raw[i] is Some,
    ensures
        filled_sample(raw, i) == raw[i],
{
}

/// An unset sample with a set one before it takes the longitude of the
/// nearest set sample before it: the meridian the walk arrived on.
pub proof fn an_unset_sample_takes_the_meridian_it_arrived_on<S>(raw: Seq<Option<S>>, j: int, i: int)
    requires
        0 <= j < i < raw.len(),
        raw[j] is Some,
        raw[i] is None,
        forall|l: int| j < l < i ==> raw[l] is None,
    ensures
        filled_sample(raw, i) == raw[j],
{
    lemma_last_set_skips_unset(raw, j, i);
}

/// Unset samples before any set one take the first set longitude after
/// them.
pub proof fn leading_unset_samples_take_the_first_set_one<S>(raw: Seq<Option<S>>, i: int, j: int)
    requires
        0 <= i < j < raw.len(),
        raw[j] is Some,
        forall|l: int| 0 <= l < j ==> raw[l] is None,
    ensures
        filled_sample(raw, i) == raw[j],
{
    lemma_last_set_before_none(raw, i);
    lemma_first_skips_unset(raw, i + 1, j);
}

} // verus!
