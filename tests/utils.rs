use navgrid::model::Polygon;
use navgrid::utils::{median, min_in_place, maybe_min, minmax, ring_iter};

#[test]
fn minmax_orders() {
    assert_eq!(minmax(3, 1), (1, 3));
    assert_eq!(minmax(-2, 5), (-2, 5));
    assert_eq!(minmax(4, 4), (4, 4));
}

#[test]
fn maybe_min_is_strict() {
    assert!(maybe_min(1, 2));
    assert!(!maybe_min(2, 2));
    assert!(!maybe_min(3, 2));
}

#[test]
fn min_in_place_lowers() {
    let mut a = 5;
    assert!(min_in_place(&mut a, 3));
    assert_eq!(a, 3);
    assert!(min_in_place(&mut a, 3));
    assert_eq!(a, 3);
    assert!(!min_in_place(&mut a, 7));
    assert_eq!(a, 3);
}

#[test]
fn median_of_values() {
    assert_eq!(median(vec![5, 1, 3]), 3);
    assert_eq!(median(vec![4, 1, 3, 2]), 3);
    assert_eq!(median(vec![7]), 7);
    assert_eq!(median(vec![2, 2, 1, 9, 9]), 2);
}

#[test]
fn ring_iter_rotates() {
    let v = vec![1, 2, 3, 4];
    assert_eq!(ring_iter(&v, 1), vec![2, 3, 4, 1]);
    assert_eq!(ring_iter(&v, 0), vec![1, 2, 3, 4]);
    assert_eq!(ring_iter(&v, 4), vec![1, 2, 3, 4]);
}

#[test]
fn polygon_points_take_a_run() {
    let buf = vec![10, 11, 12, 13, 14];
    assert_eq!(Polygon::new(1, 3).points(&buf), vec![11, 12, 13]);
    assert_eq!(Polygon::new(3, 5).points(&buf), vec![13, 14]);
    assert_eq!(Polygon::new(7, 2).points(&buf), Vec::<i32>::new());
}
