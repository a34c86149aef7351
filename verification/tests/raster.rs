use drawille::raster::line_points;

#[test]
fn line_points_count_and_endpoints() {
    let pts = line_points(2, 2, 8, 8);
    assert_eq!(pts.len(), 7);
    assert_eq!(pts[0], (2, 2));
    assert_eq!(pts[6], (8, 8));
}

#[test]
fn line_points_single_point() {
    let pts = line_points(5, 7, 5, 7);
    assert_eq!(pts, vec![(5, 7)]);
}

#[test]
fn line_points_shallow_slope_exact() {
    let pts = line_points(0, 0, 6, 2);
    assert_eq!(pts, vec![(0, 0), (1, 0), (2, 0), (3, 1), (4, 1), (5, 1), (6, 2)]);
}

#[test]
fn line_points_reversed_direction() {
    let pts = line_points(8, 8, 2, 2);
    assert_eq!(pts.len(), 7);
    assert_eq!(pts[0], (8, 8));
    assert_eq!(pts[6], (2, 2));
}

#[test]
fn line_points_steps_differ_by_at_most_one_per_axis() {
    let pts = line_points(3, 17, 29, 5);
    assert_eq!(pts.len(), 27);
    assert_eq!(pts[0], (3, 17));
    assert_eq!(pts[26], (29, 5));
    for w in pts.windows(2) {
        let (x1, y1) = w[0];
        let (x2, y2) = w[1];
        assert!(x1.abs_diff(x2) <= 1);
        assert!(y1.abs_diff(y2) <= 1);
    }
}

#[test]
fn line_points_vertical() {
    let pts = line_points(4, 9, 4, 3);
    assert_eq!(pts.len(), 7);
    for (i, p) in pts.iter().enumerate() {
        assert_eq!(*p, (4, 9 - i as u32));
    }
}
