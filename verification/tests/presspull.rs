use cadkernel::brep::presspull::{
    extrusion_profile_pieces, reversed_line, reversed_polyline, PlanarIntersection,
    PresspullMode, ProfilePiece,
};
use cadkernel::geom2d::{CurveShape, Line, Polyline, PolylineVertex};

#[test]
fn a_circle_becomes_its_four_quarters() {
    let pieces = extrusion_profile_pieces(&[CurveShape::Circle]);
    assert_eq!(
        pieces,
        (0..4).map(|quarter| ProfilePiece::Quarter { curve: 0, quarter }).collect::<Vec<_>>()
    );
}

#[test]
fn only_a_whole_turn_of_arc_or_ellipse_is_quartered() {
    let ring = [
        CurveShape::Arc { full_turn: false },
        CurveShape::Arc { full_turn: true },
        CurveShape::Ellipse { full_turn: false },
        CurveShape::Ellipse { full_turn: true },
    ];
    let pieces = extrusion_profile_pieces(&ring);
    let mut expected = vec![ProfilePiece::Whole { curve: 0 }];
    expected.extend((0..4).map(|quarter| ProfilePiece::Quarter { curve: 1, quarter }));
    expected.push(ProfilePiece::Whole { curve: 2 });
    expected.extend((0..4).map(|quarter| ProfilePiece::Quarter { curve: 3, quarter }));
    assert_eq!(pieces, expected);
}

#[test]
fn a_polyline_becomes_its_segments_in_ring_order() {
    let ring = [
        CurveShape::Line,
        CurveShape::Polyline { vertices: 3, closed: false },
        CurveShape::Polyline { vertices: 3, closed: true },
        CurveShape::Nurbs { closed: false },
    ];
    let pieces = extrusion_profile_pieces(&ring);
    assert_eq!(
        pieces,
        vec![
            ProfilePiece::Whole { curve: 0 },
            ProfilePiece::Segment { curve: 1, segment: 0 },
            ProfilePiece::Segment { curve: 1, segment: 1 },
            ProfilePiece::Segment { curve: 2, segment: 0 },
            ProfilePiece::Segment { curve: 2, segment: 1 },
            ProfilePiece::Segment { curve: 2, segment: 2 },
            ProfilePiece::Whole { curve: 3 },
        ]
    );
}

#[test]
fn an_empty_ring_has_no_pieces() {
    assert!(extrusion_profile_pieces(&[]).is_empty());
}

#[test]
fn a_reversed_line_swaps_its_ends() {
    let line = Line { start: [1.0, 2.0], end: [4.0, 6.0] };
    let back = reversed_line(&line);
    assert_eq!(back.start, [4.0, 6.0]);
    assert_eq!(back.end, [1.0, 2.0]);
}

fn vertex(x: f64, bulge: f64) -> PolylineVertex<f64> {
    PolylineVertex { position: [x, 0.0], bulge }
}

#[test]
fn a_reversed_open_polyline_negates_each_segments_bulge() {
    let polyline = Polyline {
        vertices: vec![vertex(0.0, 0.5), vertex(1.0, -0.25), vertex(2.0, 0.0)],
        closed: false,
    };
    let back = reversed_polyline(&polyline, |b: f64| -b, 0.0);
    assert!(!back.closed);
    let positions: Vec<f64> = back.vertices.iter().map(|v| v.position[0]).collect();
    let bulges: Vec<f64> = back.vertices.iter().map(|v| v.bulge).collect();
    assert_eq!(positions, vec![2.0, 1.0, 0.0]);
    assert_eq!(bulges, vec![0.25, -0.5, 0.0]);
}

#[test]
fn a_reversed_closed_polyline_carries_the_closing_bulge_to_its_new_start_segment() {
    let polyline = Polyline {
        vertices: vec![vertex(0.0, 0.5), vertex(1.0, -0.25), vertex(2.0, 1.0)],
        closed: true,
    };
    let back = reversed_polyline(&polyline, |b: f64| -b, 0.0);
    assert!(back.closed);
    let bulges: Vec<f64> = back.vertices.iter().map(|v| v.bulge).collect();
    assert_eq!(bulges, vec![0.25, -0.5, -1.0]);
}

#[test]
fn reversing_twice_gives_the_polyline_back() {
    let polyline = Polyline {
        vertices: vec![vertex(0.0, 0.5), vertex(1.0, -0.25), vertex(3.0, 0.75)],
        closed: true,
    };
    let twice = reversed_polyline(&reversed_polyline(&polyline, |b: f64| -b, 0.0), |b: f64| -b, 0.0);
    let same = twice
        .vertices
        .iter()
        .zip(&polyline.vertices)
        .all(|(a, b)| a.position == b.position && a.bulge == b.bulge);
    assert!(same && twice.vertices.len() == 3);
}

#[test]
fn the_modes_and_outcomes_are_distinct() {
    assert_ne!(PresspullMode::Extrude, PresspullMode::Offset);
    let outcome: PlanarIntersection<&str> = PlanarIntersection::Area("sheet");
    assert!(matches!(outcome, PlanarIntersection::Area("sheet")));
    assert!(matches!(PlanarIntersection::<()>::Touching, PlanarIntersection::Touching));
    assert!(matches!(PlanarIntersection::<()>::Disjoint, PlanarIntersection::Disjoint));
}
