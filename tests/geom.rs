use rdraw::geom::{isqrt, normalize, point_equals, polygon_area, triangle_area, ONE};

#[test]
fn square_root_rounds_down() {
    assert_eq!(isqrt(0), 0);
    assert_eq!(isqrt(24), 4);
    assert_eq!(isqrt(25), 5);
    assert_eq!(isqrt(u64::MAX), 4294967295);
}

#[test]
fn normalize_gives_unit_direction() {
    assert_eq!(normalize(3 * ONE, 4 * ONE), (39321, 52428, 5 * ONE));
    assert_eq!(normalize(-3, 0), (-ONE, 0, 3));
    assert_eq!(normalize(0, 0), (0, 0, 0));
}

#[test]
fn points_within_tolerance_are_equal() {
    assert!(point_equals(0, 0, 3, 4, 6));
    assert!(!point_equals(0, 0, 3, 4, 5));
    assert!(!point_equals(0, 0, 0, 0, 0));
}

#[test]
fn areas_are_signed() {
    assert_eq!(triangle_area(0, 0, 10, 0, 10, 10), -100);
    assert_eq!(triangle_area(0, 0, 10, 10, 10, 0), 100);
    let square = vec![(0, 0), (10, 0), (10, 10), (0, 10)];
    assert_eq!(polygon_area(&square), -200);
    let mut reversed = square.clone();
    reversed.reverse();
    assert_eq!(polygon_area(&reversed), 200);
    assert_eq!(polygon_area(&vec![(0, 0), (5, 5)]), 0);
}

#[test]
fn area_ignores_the_starting_vertex() {
    let pts = vec![(0, 0), (10, 0), (12, 7), (3, 9), (-2, 4)];
    let area = polygon_area(&pts);
    for r in 0..pts.len() {
        let mut rotated = pts[r..].to_vec();
        rotated.extend_from_slice(&pts[..r]);
        assert_eq!(polygon_area(&rotated), area);
    }
}
