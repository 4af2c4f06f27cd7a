use pathtracer::axis::Axis;

#[test]
fn each_plane_fixes_the_remaining_axis() {
    assert_eq!(Axis::XY.fixed(), 2);
    assert_eq!(Axis::XZ.fixed(), 1);
    assert_eq!(Axis::YZ.fixed(), 0);
}

#[test]
fn each_plane_is_spanned_by_its_two_axes() {
    assert_eq!(Axis::XY.plane(), (0, 1));
    assert_eq!(Axis::XZ.plane(), (0, 2));
    assert_eq!(Axis::YZ.plane(), (1, 2));
}
