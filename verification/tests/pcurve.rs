use cadkernel::brep::pcurve::{fill_unset_longitudes, wraps, SurfaceKind};

#[test]
fn only_closed_surfaces_wrap() {
    assert_eq!(wraps(SurfaceKind::Plane), (false, false));
    assert_eq!(wraps(SurfaceKind::Cylinder), (true, false));
    assert_eq!(wraps(SurfaceKind::Cone), (true, false));
    assert_eq!(wraps(SurfaceKind::Sphere), (true, false));
    assert_eq!(wraps(SurfaceKind::Torus), (true, true));
    assert_eq!(wraps(SurfaceKind::Nurbs { u_periodic: false, v_periodic: true }), (false, true));
}

#[test]
fn a_pole_in_the_middle_takes_the_meridian_it_arrived_on() {
    let raw = vec![Some(0.5), Some(0.5), None, Some(2.0)];
    assert_eq!(fill_unset_longitudes(&raw), Some(vec![0.5, 0.5, 0.5, 2.0]));
}

#[test]
fn a_walk_starting_at_a_pole_takes_the_first_meridian_after_it() {
    let raw = vec![None, None, Some(1.25), None, Some(3.0)];
    assert_eq!(fill_unset_longitudes(&raw), Some(vec![1.25, 1.25, 1.25, 1.25, 3.0]));
}

#[test]
fn a_walk_with_no_longitude_at_all_is_refused() {
    assert_eq!(fill_unset_longitudes::<f64>(&vec![None, None]), None);
    assert_eq!(fill_unset_longitudes::<f64>(&vec![]), Some(vec![]));
    assert_eq!(fill_unset_longitudes(&vec![Some(4.0)]), Some(vec![4.0]));
}
