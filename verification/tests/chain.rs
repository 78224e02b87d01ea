use cadkernel::brep::chain::{boundary_loop_orders, chain_within, closed_curve_order, EndContacts};

type Segment = ([f64; 2], [f64; 2]);

/// Measures every end against every end: start of piece `i` is end `2i`,
/// its finish `2i + 1`.
fn contacts(pieces: &[Segment]) -> EndContacts {
    let ends: Vec<[f64; 2]> = pieces.iter().flat_map(|(a, b)| [*a, *b]).collect();
    let touching = ends
        .iter()
        .map(|a| ends.iter().map(|b| (a[0] - b[0]).hypot(a[1] - b[1]) <= 1e-9).collect())
        .collect();
    EndContacts::new(pieces.len(), touching).expect("square table")
}

#[test]
fn a_shuffled_square_chains_into_one_ring() {
    let pieces = [
        ([0.0, 0.0], [10.0, 0.0]),
        ([10.0, 10.0], [10.0, 0.0]),
        ([0.0, 10.0], [0.0, 0.0]),
        ([10.0, 10.0], [0.0, 10.0]),
    ];
    let order = closed_curve_order(&contacts(&pieces)).expect("a closed square");
    assert_eq!(order, vec![(0, true), (1, false), (3, true), (2, true)]);
}

#[test]
fn a_gap_leaves_no_ring() {
    let pieces = [
        ([0.0, 0.0], [10.0, 0.0]),
        ([10.0, 0.0], [10.0, 10.0]),
        ([10.0, 10.0], [0.0, 9.0]),
    ];
    assert_eq!(closed_curve_order(&contacts(&pieces)), None);
    assert_eq!(boundary_loop_orders(&contacts(&pieces)), None);
}

#[test]
fn a_dead_end_forwards_is_retried_backwards() {
    let pieces = [
        ([0.0, 0.0], [5.0, 0.0]),
        ([5.0, 0.0], [5.0, 5.0]),
        ([5.0, 0.0], [0.0, 0.0]),
    ];
    let order = closed_curve_order(&contacts(&pieces)).expect("closes backwards");
    assert_eq!(order, vec![(0, false), (2, false)]);
}

#[test]
fn a_piece_closed_on_itself_is_a_ring_alone() {
    let pieces = [([1.0, 1.0], [1.0, 1.0]), ([0.0, 0.0], [2.0, 0.0])];
    assert_eq!(closed_curve_order(&contacts(&pieces)), Some(vec![(0, true)]));
}

#[test]
fn no_pieces_make_no_ring_and_no_loops() {
    let table = contacts(&[]);
    assert_eq!(closed_curve_order(&table), None);
    assert_eq!(boundary_loop_orders(&table), Some(vec![]));
}

#[test]
fn two_interleaved_rings_separate_into_two_loops() {
    let pieces = [
        ([0.0, 0.0], [10.0, 0.0]),
        ([3.0, 3.0], [7.0, 3.0]),
        ([10.0, 0.0], [10.0, 10.0]),
        ([7.0, 3.0], [5.0, 7.0]),
        ([10.0, 10.0], [0.0, 0.0]),
        ([5.0, 7.0], [3.0, 3.0]),
    ];
    let loops = boundary_loop_orders(&contacts(&pieces)).expect("two loops");
    assert_eq!(
        loops,
        vec![vec![(0, true), (2, true), (4, true)], vec![(1, true), (3, true), (5, true)]]
    );
}

#[test]
fn a_chain_can_start_from_any_listed_piece() {
    let pieces = [
        ([0.0, 0.0], [1.0, 0.0]),
        ([1.0, 0.0], [0.0, 0.0]),
        ([5.0, 5.0], [6.0, 5.0]),
        ([6.0, 5.0], [5.0, 5.0]),
    ];
    let table = contacts(&pieces);
    assert_eq!(chain_within(&table, &vec![2, 3]), Some(vec![(2, true), (3, true)]));
    assert_eq!(chain_within(&table, &vec![]), None);
}

#[test]
fn a_table_that_is_not_square_is_refused() {
    assert!(EndContacts::new(1, vec![vec![true, false]]).is_none());
    assert!(EndContacts::new(1, vec![vec![true, false], vec![false]]).is_none());
    let table = EndContacts::new(1, vec![vec![true, false], vec![false, true]]).unwrap();
    assert_eq!(table.pieces(), 1);
    assert!(table.touches(0, 0));
    assert!(!table.touches(0, 1));
}
