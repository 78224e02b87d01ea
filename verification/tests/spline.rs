use cadkernel::space::helix::{helix_knots, HelixDirection};
use cadkernel::space::nurbs::{control_net_shape, periodic_control_net, periodic_control_polygon, NurbsCurve3, NurbsSurface3};
use cadkernel::space::arc_union::ArcUnionKind;
use cadkernel::space::line_union::LineUnionKind;

fn cubic() -> NurbsCurve3<[f64; 3], f64> {
    let points = vec![[0.0, 0.0, 0.0], [1.0, 1.0, 0.0], [2.0, 0.0, 0.0], [3.0, 1.0, 0.0], [4.0, 0.0, 0.0]];
    let knots = vec![0.0, 0.0, 0.0, 0.0, 0.5, 1.0, 1.0, 1.0, 1.0];
    NurbsCurve3::from_parts(3, points, knots, vec![1.0; 5]).expect("counts fit")
}

#[test]
fn one_helix_segment_is_a_clamped_cubic_bezier() {
    assert_eq!(helix_knots(1), vec![0, 0, 0, 0, 1, 1, 1, 1]);
}

#[test]
fn helix_knots_repeat_each_interior_span_three_times() {
    assert_eq!(helix_knots(3), vec![0, 0, 0, 0, 1, 1, 1, 2, 2, 2, 3, 3, 3, 3]);
    assert_eq!(helix_knots(6).len(), 3 * 6 + 1 + 4);
}

#[test]
fn helix_knots_never_decrease() {
    let knots = helix_knots(7);
    assert!(knots.windows(2).all(|pair| pair[0] <= pair[1]));
    assert_eq!(&knots[..4], &[0, 0, 0, 0]);
    assert_eq!(&knots[knots.len() - 4..], &[7, 7, 7, 7]);
}

#[test]
fn counts_that_do_not_fit_are_refused() {
    let points = vec![[0.0; 3], [1.0, 0.0, 0.0]];
    assert!(NurbsCurve3::from_parts(2, points.clone(), vec![0.0; 5], vec![1.0; 2]).is_none());
    assert!(NurbsCurve3::from_parts(0, points.clone(), vec![0.0; 3], vec![1.0; 2]).is_none());
    assert!(NurbsCurve3::from_parts(1, points.clone(), vec![0.0; 5], vec![1.0; 2]).is_none());
    assert!(NurbsCurve3::from_parts(1, points.clone(), vec![0.0, 0.0, 1.0, 1.0], vec![1.0; 3]).is_none());
    assert!(NurbsCurve3::from_parts(1, points, vec![0.0, 0.0, 1.0, 1.0], vec![1.0; 2]).is_some());
}

#[test]
fn the_parts_come_back_as_given() {
    let curve = cubic();
    assert_eq!(curve.degree(), 3);
    assert_eq!(curve.control_points().len(), 5);
    assert_eq!(curve.knots()[4], 0.5);
    assert_eq!(curve.weights(), &[1.0; 5]);
    assert_eq!(curve.domain(), (0.0, 1.0));
    assert!(!curve.periodicity());
    assert!(cubic().with_periodicity(true).periodicity());
}

#[test]
fn deleting_a_vertex_drops_its_weight_and_the_knot_half_an_order_on() {
    let curve = cubic();
    let edited = curve.without_control_vertex(2, true).expect("clamped and open");
    assert_eq!(edited.degree(), 3);
    assert_eq!(edited.control_points(), &[[0.0, 0.0, 0.0], [1.0, 1.0, 0.0], [3.0, 1.0, 0.0], [4.0, 0.0, 0.0]]);
    // The knot at 2 + (3 + 1) / 2 = 4 goes: the single interior knot.
    assert_eq!(edited.knots(), &[0.0, 0.0, 0.0, 0.0, 1.0, 1.0, 1.0, 1.0]);
    assert_eq!(edited.weights().len(), 4);
}

#[test]
fn deleting_the_first_vertex_keeps_the_clamped_start() {
    let edited = cubic().without_control_vertex(0, true).unwrap();
    // 0 + 2 = 2 is raised to the first knot past the clamped start, 4.
    assert_eq!(edited.knots(), &[0.0, 0.0, 0.0, 0.0, 1.0, 1.0, 1.0, 1.0]);
}

#[test]
fn too_few_vertices_for_the_order_lower_the_degree() {
    let points = vec![[0.0; 3], [1.0, 1.0, 0.0], [2.0, 0.0, 0.0]];
    let curve = NurbsCurve3::from_parts(2, points, vec![0.0, 0.0, 0.0, 1.0, 1.0, 1.0], vec![1.0, 2.0, 1.0]).unwrap();
    let edited = curve.without_control_vertex(1, true).unwrap();
    assert_eq!(edited.degree(), 1);
    assert_eq!(edited.knots(), &[0.0, 0.0, 1.0, 1.0]);
    assert_eq!(edited.weights(), &[1.0, 1.0]);
}

#[test]
fn a_vertex_cannot_be_deleted_from_a_periodic_unclamped_or_tiny_curve() {
    assert!(cubic().with_periodicity(true).without_control_vertex(1, true).is_none());
    assert!(cubic().without_control_vertex(1, false).is_none());
    assert!(cubic().without_control_vertex(5, true).is_none());
    let line = NurbsCurve3::from_parts(1, vec![[0.0; 3], [1.0; 3]], vec![0.0, 0.0, 1.0, 1.0], vec![1.0; 2]).unwrap();
    assert!(line.without_control_vertex(0, true).is_none());
}

#[test]
fn the_union_and_winding_kinds_are_distinct() {
    assert_ne!(ArcUnionKind::Duplicate, ArcUnionKind::Overlap);
    assert_ne!(ArcUnionKind::Overlap, ArcUnionKind::EndToEnd);
    assert_ne!(LineUnionKind::Duplicate, LineUnionKind::EndToEnd);
    assert_ne!(HelixDirection::Clockwise, HelixDirection::CounterClockwise);
}

#[test]
fn a_periodic_polygon_starts_degree_points_before_the_first() {
    let points = ['a', 'b', 'c', 'd'];
    let controls: String = periodic_control_polygon(&points, 2).into_iter().collect();
    assert_eq!(controls, "cdabcdabcdabcd");
}

#[test]
fn a_ragged_net_is_refused_and_a_rectangle_measured() {
    let ragged = vec![vec![[0.0; 3], [1.0; 3], [2.0; 3]], vec![[0.0; 3], [1.0; 3]], vec![[0.0; 3], [1.0; 3], [2.0; 3]]];
    assert_eq!(control_net_shape(&ragged, 2, 2), None);
    let square = vec![vec![0u8; 3]; 3];
    assert_eq!(control_net_shape(&square, 2, 2), Some((3, 3)));
    assert_eq!(control_net_shape(&square, 3, 2), None);
    assert_eq!(control_net_shape(&square, 2, 0), None);
    assert_eq!(control_net_shape::<u8>(&vec![], 1, 1), None);
}

#[test]
fn a_periodic_net_repeats_its_first_rows_and_columns() {
    let net = vec![vec![(0, 0), (0, 1), (0, 2)], vec![(1, 0), (1, 1), (1, 2)], vec![(2, 0), (2, 1), (2, 2)]];
    let wrapped = periodic_control_net(&net, 2, 1, true, true);
    assert_eq!(wrapped.len(), 5);
    assert!(wrapped.iter().all(|row| row.len() == 4));
    for (i, row) in wrapped.iter().enumerate() {
        for (j, entry) in row.iter().enumerate() {
            assert_eq!(*entry, (i % 3, j % 3));
        }
    }
    let open = periodic_control_net(&net, 2, 1, false, false);
    assert_eq!(open, net);
}

#[test]
fn reversing_runs_points_weights_and_knots_backwards() {
    let points = vec![[0.0, 0.0, 0.0], [1.0, 1.0, 0.0], [2.0, 0.0, 0.0], [3.0, 1.0, 0.0]];
    let knots = vec![0.0, 0.0, 0.0, 0.25, 1.0, 1.0, 1.0];
    let curve = NurbsCurve3::from_parts(2, points, knots, vec![1.0, 2.0, 3.0, 4.0]).unwrap();
    let (start, end) = curve.domain();
    let back = curve.reversed(|v: f64| start + end - v);
    assert_eq!(back.control_points()[0], [3.0, 1.0, 0.0]);
    assert_eq!(back.weights(), &[4.0, 3.0, 2.0, 1.0]);
    assert_eq!(back.knots(), &[0.0, 0.0, 0.0, 0.75, 1.0, 1.0, 1.0]);
    assert_eq!(back.degree(), 2);
    let again = back.reversed(|v: f64| start + end - v);
    assert_eq!(again.knots(), curve.knots());
    assert_eq!(again.control_points(), curve.control_points());
    assert_eq!(again.weights(), curve.weights());
}

fn hill_net() -> Vec<Vec<[f64; 3]>> {
    let mut net = Vec::new();
    for row in 0..3 {
        let mut across = Vec::new();
        for column in 0..3 {
            let height = if row == 1 && column == 1 { 4.0 } else { 0.0 };
            across.push([row as f64 * 5.0, column as f64 * 5.0, height]);
        }
        net.push(across);
    }
    net
}

#[test]
fn a_surface_keeps_its_parts_and_domain() {
    let clamped = vec![0.0, 0.0, 0.0, 1.0, 1.0, 1.0];
    let surface = NurbsSurface3::from_parts(2, 2, hill_net(), clamped.clone(), clamped.clone(), vec![vec![1.0; 3]; 3], (false, true)).unwrap();
    assert_eq!(surface.degrees(), (2, 2));
    assert_eq!(surface.domain(), ((0.0, 1.0), (0.0, 1.0)));
    assert_eq!(surface.periodicity(), [false, true]);
    assert_eq!(surface.control_points()[1][1], [5.0, 5.0, 4.0]);
    assert_eq!(surface.knots().0, clamped.as_slice());
    assert_eq!(surface.weights().len(), 3);
    assert!(!surface.v_reversed());
    let surface = surface.with_periodicity(true, false).with_v_reversed(true);
    assert_eq!(surface.periodicity(), [true, true]);
    assert!(surface.v_reversed());
}

#[test]
fn a_surface_with_mismatched_counts_is_refused() {
    let clamped = vec![0.0, 0.0, 0.0, 1.0, 1.0, 1.0];
    let weights = vec![vec![1.0; 3]; 3];
    assert!(NurbsSurface3::from_parts(2, 2, hill_net(), clamped.clone(), vec![0.0; 5], weights.clone(), (false, false)).is_none());
    assert!(NurbsSurface3::from_parts(2, 2, hill_net(), clamped.clone(), clamped.clone(), vec![vec![1.0; 3]; 2], (false, false)).is_none());
    assert!(NurbsSurface3::from_parts(2, 2, hill_net(), clamped.clone(), clamped.clone(), vec![vec![1.0; 3], vec![1.0; 2], vec![1.0; 3]], (false, false)).is_none());
    let mut ragged = hill_net();
    ragged[1].pop();
    assert!(NurbsSurface3::from_parts(2, 2, ragged, clamped.clone(), clamped, weights, (false, false)).is_none());
}
