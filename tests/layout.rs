use blue_noise::layout::best_grid_dimensions;

#[test]
fn test_grid_dimension() {
    let (r, c) = best_grid_dimensions(16, 8, 8);
    assert_eq!(r, 4);
    assert_eq!(c, 4);

    let (r, c) = best_grid_dimensions(16, 1, 44);
    assert_eq!(r, 1);
    assert_eq!(c, 16);
}

#[test]
fn grid_dimensions_follow_the_box() {
    assert_eq!(best_grid_dimensions(12, 10, 5), (4, 3));
    assert_eq!(best_grid_dimensions(12, 5, 10), (2, 6));
    assert_eq!(best_grid_dimensions(7, 3, 3), (1, 7));
}

#[test]
fn grid_dimensions_without_target() {
    assert_eq!(best_grid_dimensions(0, 4, 4), (0, 1));
    assert_eq!(best_grid_dimensions(6, 4, 0), (6, 1));
}
