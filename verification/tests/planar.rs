use cadkernel::geom2d::{CurveShape, Extent};
use cadkernel::space::planar::PlanarCurve;

/// The XZ plane: X stays X, the curve's Y becomes world Z. An entity with an
/// extrusion normal of +Y is stored this way.
fn upright() -> ([f64; 3], [f64; 3], [f64; 3]) {
    ([0.0; 3], [1.0, 0.0, 0.0], [0.0, -1.0, 0.0])
}

/// A quarter of the unit circle, from angle 0 to a quarter turn.
fn unit_arc() -> CurveShape {
    CurveShape::Arc { full_turn: false }
}

#[test]
fn the_shape_answers_for_closure_and_extent_not_the_frame() {
    let arc = PlanarCurve::new(upright(), unit_arc());
    assert!(!arc.is_closed());
    assert_eq!(arc.extent(), Extent::Bounded);

    // The same unit circle swept from 0 to a whole turn.
    let circle = PlanarCurve::new(upright(), CurveShape::Arc { full_turn: true });
    assert!(circle.is_closed());
}

#[test]
fn a_new_planar_curve_keeps_its_frame_and_shape() {
    let curve = PlanarCurve::new(upright(), CurveShape::Line);
    assert_eq!(curve.plane, upright());
    assert_eq!(curve.curve, CurveShape::Line);
}

#[test]
fn rays_run_forward_and_construction_lines_run_both_ways() {
    assert_eq!(PlanarCurve::new((), CurveShape::Ray).extent(), Extent::Forward);
    assert_eq!(PlanarCurve::new((), CurveShape::XLine).extent(), Extent::Infinite);
    for shape in [
        CurveShape::Line,
        CurveShape::Circle,
        CurveShape::Arc { full_turn: true },
        CurveShape::Ellipse { full_turn: false },
        CurveShape::Polyline { vertices: 3, closed: true },
        CurveShape::Nurbs { closed: false },
    ] {
        assert_eq!(PlanarCurve::new((), shape).extent(), Extent::Bounded, "{shape:?}");
    }
}

#[test]
fn closure_follows_the_kind_of_curve() {
    let closed = |shape| PlanarCurve::new((), shape).is_closed();
    assert!(closed(CurveShape::Circle));
    assert!(!closed(CurveShape::Line));
    assert!(!closed(CurveShape::Ray));
    assert!(!closed(CurveShape::XLine));
    assert!(closed(CurveShape::Ellipse { full_turn: true }));
    assert!(!closed(CurveShape::Ellipse { full_turn: false }));
    assert!(closed(CurveShape::Polyline { vertices: 4, closed: true }));
    assert!(!closed(CurveShape::Polyline { vertices: 4, closed: false }));
    assert!(closed(CurveShape::Nurbs { closed: true }));
}

#[test]
fn the_same_shape_on_two_frames_answers_alike() {
    let flat = PlanarCurve::new(([0.0; 3], [1.0, 0.0, 0.0], [0.0, 1.0, 0.0]), unit_arc());
    let raised = PlanarCurve::new(upright(), unit_arc());
    assert_eq!(flat.is_closed(), raised.is_closed());
    assert_eq!(flat.extent(), raised.extent());
}

#[test]
fn a_polyline_has_one_segment_per_vertex_when_closed() {
    assert_eq!(CurveShape::Polyline { vertices: 4, closed: true }.segment_count(), 4);
    assert_eq!(CurveShape::Polyline { vertices: 4, closed: false }.segment_count(), 3);
    assert_eq!(CurveShape::Polyline { vertices: 0, closed: false }.segment_count(), 0);
    assert_eq!(CurveShape::Circle.segment_count(), 0);
}
