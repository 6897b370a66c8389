use navgrid::geom::{
    aabox_are_adjacent, generate_points_on_line, generate_random_points, intersect_polygon,
    intersect_ray, intersect_segment, point_in_aabox, point_in_polygon, AABox, Line, Point,
};

fn v(x: i32, y: i32) -> Point {
    Point::new(x, y)
}

#[test]
fn test_aabox_adjacent() {
    // Coordinates in tenths.
    let lhs = AABox::new_square(v(0, 0), 10);
    assert!(aabox_are_adjacent(&lhs, &AABox::new_square(v(10, 0), 10)));
    assert!(!aabox_are_adjacent(&lhs, &AABox::new_square(v(11, 0), 10)));
    assert!(aabox_are_adjacent(&lhs, &AABox::new_square(v(0, 10), 1)));
    assert!(!aabox_are_adjacent(&lhs, &AABox::new_square(v(5, 5), 1)));
    assert!(aabox_are_adjacent(&lhs, &AABox::new_square(v(1, -10), 10)));
}

#[test]
fn test_point_in_polygon() {
    let triangle = vec![v(1, 1), v(1, -1), v(-1, 0)];
    assert!(point_in_polygon(&v(0, 0), &triangle));
    assert!(!point_in_polygon(&v(2, 0), &triangle));
}

#[test]
fn test_intersect() {
    // parallel
    assert_eq!(
        intersect_segment(&Line::new_ray(v(0, 0), v(1, 0)), &v(0, 1), &v(1, 1)),
        None
    );
    // simple
    assert_eq!(
        intersect_segment(&Line::new_ray(v(0, 0), v(1, 0)), &v(1, 1), &v(1, -2)),
        Some(v(1, 0))
    );
    // too short (coordinates in tenths)
    assert_eq!(
        intersect_segment(&Line::new_segment(v(0, 0), v(1, 0)), &v(10, 10), &v(10, -100)),
        None
    );
}

#[test]
fn intersection_point_rounds_down() {
    // Diagonal (0,0)->(3,3) meets the segment (0,2)->(2,0) at (1,1).
    let l = Line::new_segment(v(0, 0), v(3, 3));
    assert_eq!(intersect_segment(&l, &v(0, 2), &v(2, 0)), Some(v(1, 1)));
    // (0,0)->(1,3) meets y = 1 at x = 1/3, which rounds down to 0.
    let l = Line::new_segment(v(0, 0), v(1, 3));
    assert_eq!(intersect_segment(&l, &v(-5, 1), &v(5, 1)), Some(v(0, 1)));
    // (0,0)->(-1,3) meets y = 1 at x = -1/3, which rounds down to -1.
    let l = Line::new_segment(v(0, 0), v(-1, 3));
    assert_eq!(intersect_segment(&l, &v(-5, 1), &v(5, 1)), Some(v(-1, 1)));
}

#[test]
fn intersection_is_half_open() {
    let l = Line::new_segment(v(0, 0), v(10, 0));
    // The segment's start counts, its end does not.
    assert_eq!(intersect_segment(&l, &v(5, 0), &v(5, 5)), Some(v(5, 0)));
    assert_eq!(intersect_segment(&l, &v(5, 5), &v(5, 0)), None);
    // The line's start counts, its end does not.
    assert_eq!(intersect_segment(&l, &v(0, -1), &v(0, 1)), Some(v(0, 0)));
    assert_eq!(intersect_segment(&l, &v(10, -1), &v(10, 1)), None);
    // A ray has no end.
    let r = Line::new_ray(v(0, 0), v(1, 0));
    assert_eq!(intersect_segment(&r, &v(1000, -1), &v(1000, 1)), Some(v(1000, 0)));
}

#[test]
fn degenerate_lines_never_meet() {
    let point = Line::new_segment(v(3, 3), v(3, 3));
    assert_eq!(intersect_segment(&point, &v(0, 0), &v(6, 6)), None);
    assert_eq!(intersect_segment(&point, &v(0, 6), &v(6, 0)), None);
    let collinear = Line::new_segment(v(0, 0), v(10, 0));
    assert_eq!(intersect_segment(&collinear, &v(2, 0), &v(8, 0)), None);
}

#[test]
fn extreme_coordinates_do_not_overflow() {
    let l = Line::new_segment(v(i32::MIN, i32::MIN), v(i32::MAX, i32::MAX));
    assert_eq!(
        intersect_segment(&l, &v(i32::MIN, i32::MAX), &v(i32::MAX, i32::MIN)),
        Some(v(-1, -1))
    );
}

#[test]
fn square_inside_and_outside() {
    let sq = vec![v(0, 0), v(10, 0), v(10, 10), v(0, 10)];
    assert!(point_in_polygon(&v(5, 3), &sq));
    assert!(point_in_polygon(&v(1, 1), &sq));
    assert!(point_in_polygon(&v(9, 9), &sq));
    assert!(!point_in_polygon(&v(-5, 3), &sq));
    assert!(!point_in_polygon(&v(15, 15), &sq));
    assert!(!point_in_polygon(&v(-1, -1), &sq));
    assert!(!point_in_polygon(&v(5, -20), &sq));
}

#[test]
fn ray_grazing_a_corner_counts_once() {
    // A documented limit of the even-odd rule along the diagonal.
    let sq = vec![v(0, 0), v(10, 0), v(10, 10), v(0, 10)];
    assert!(point_in_polygon(&v(5, -5), &sq));
}

#[test]
fn polygon_crossing() {
    let sq = vec![v(0, 0), v(10, 0), v(10, 10), v(0, 10)];
    assert!(intersect_polygon(&Line::new_segment(v(5, 5), v(20, 5)), &sq));
    assert!(!intersect_polygon(&Line::new_segment(v(20, 5), v(30, 5)), &sq));
    assert!(!intersect_polygon(&Line::new_segment(v(2, 2), v(8, 8)), &sq));
}

#[test]
fn box_containment_is_half_open() {
    let b = AABox::new_square(v(0, 0), 10);
    assert!(point_in_aabox(&v(0, 0), &b));
    assert!(point_in_aabox(&v(9, 9), &b));
    assert!(!point_in_aabox(&v(10, 5), &b));
    assert!(!point_in_aabox(&v(5, 10), &b));
    assert!(!point_in_aabox(&v(-1, 5), &b));
}

#[test]
fn box_center_corners_and_square_around() {
    let b = AABox { start: v(2, 4), dim: v(5, 6) };
    assert_eq!(b.center(), v(4, 7));
    assert_eq!(b.corners(), [v(2, 4), v(7, 4), v(7, 10), v(2, 10)]);
    let c = AABox::new_square_center(v(10, 10), 3);
    assert_eq!(c.start, v(7, 7));
    assert_eq!(c.dim, v(6, 6));
}

#[test]
fn split_halves_the_longer_side() {
    let mut b = AABox { start: v(0, 0), dim: v(8, 4) };
    let far = b.split_mut();
    assert_eq!(b, AABox { start: v(0, 0), dim: v(4, 4) });
    assert_eq!(far, AABox { start: v(4, 0), dim: v(4, 4) });
    // A tie splits along x.
    let mut b = AABox { start: v(0, 0), dim: v(4, 4) };
    let far = b.split_mut();
    assert_eq!(b.dim, v(2, 4));
    assert_eq!(far, AABox { start: v(2, 0), dim: v(2, 4) });
    // A taller box splits along y.
    let mut b = AABox { start: v(1, 1), dim: v(2, 6) };
    let far = b.split_mut();
    assert_eq!(b.dim, v(2, 3));
    assert_eq!(far, AABox { start: v(1, 4), dim: v(2, 3) });
    // An odd side gives the far half the extra unit.
    let mut b = AABox { start: v(0, 0), dim: v(5, 1) };
    let far = b.split_mut();
    assert_eq!(b.dim, v(2, 1));
    assert_eq!(far, AABox { start: v(2, 0), dim: v(3, 1) });
}

#[test]
fn repeated_splits_never_reach_zero() {
    let mut b = AABox { start: v(0, 0), dim: v(64, 64) };
    let mut area = 64 * 64;
    while b.dim.x >= 2 || b.dim.y >= 2 {
        let far = b.split_mut();
        assert!(b.dim.x >= 1 && b.dim.y >= 1 && far.dim.x >= 1 && far.dim.y >= 1);
        let a = b.dim.x * b.dim.y;
        assert!(a < area);
        area = a;
    }
    assert_eq!(b.dim, v(1, 1));
}

#[test]
fn random_points_stay_in_bounds() {
    let lower = v(-50, 10);
    let upper = v(50, 20);
    let pts = generate_random_points(200, &lower, &upper);
    assert_eq!(pts.len(), 200);
    for p in &pts {
        assert!(p.x >= -50 && p.x < 50 && p.y >= 10 && p.y < 20);
    }
    assert!(pts.iter().any(|p| *p != lower));
}

#[test]
fn segment_end_and_start() {
    let l = Line::new_segment(v(1, 2), v(4, -6));
    assert_eq!(l.start(), v(1, 2));
    assert_eq!(l.end(), v(4, -6));
}

#[test]
fn box_edges_run_around() {
    let b = AABox { start: v(1, 2), dim: v(3, 4) };
    let e = b.edges();
    assert_eq!(e[0], Line::new_segment(v(1, 2), v(4, 2)));
    assert_eq!(e[1], Line::new_segment(v(4, 2), v(4, 6)));
    assert_eq!(e[2], Line::new_segment(v(4, 6), v(1, 6)));
    assert_eq!(e[3], Line::new_segment(v(1, 6), v(1, 2)));
}

#[test]
fn points_along_a_segment() {
    let l = Line::new_segment(v(0, 0), v(10, -5));
    let pts = generate_points_on_line(4, &l);
    assert_eq!(pts, vec![v(0, 0), v(2, -2), v(5, -3), v(7, -4)]);
    assert!(generate_points_on_line(0, &l).is_empty());
}

#[test]
fn segment_meets_ray() {
    let seg = Line::new_segment(v(4, 2), v(-4, 4));
    assert_eq!(intersect_ray(&seg, &v(-2, 1), &v(1, 1)), Some(v(0, 3)));
    assert_eq!(intersect_ray(&seg, &v(-2, 1), &v(-1, -1)), None);
    assert_eq!(intersect_ray(&seg, &v(0, 0), &v(-4, 1)), None);
}
