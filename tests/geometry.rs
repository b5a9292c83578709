use kmeans::{get_range, HyperRectangle, Point};

#[test]
fn point_distance() {
    let d = Point::distance(&Point([1, 2, 3]), &Point([4, 5, 6]));
    assert_eq!(d, 27);
    assert_eq!((d as f64).sqrt(), 5.196152422706632);
}

#[test]
fn point_default_is_origin() {
    assert_eq!(Point::<3>::default(), Point([0, 0, 0]));
    assert_eq!(Point::new([4, -7]), Point([4, -7]));
}

#[test]
fn point_distance_extreme_coordinates() {
    let a = Point([i32::MIN, i32::MIN]);
    let b = Point([i32::MAX, i32::MAX]);
    let side = (u32::MAX as u128) * (u32::MAX as u128);
    assert_eq!(a.distance(&b), 2 * side);
}

#[test]
fn split() {
    let h = HyperRectangle(Point([0, 0]), Point([2, 2]));
    let (h1, h2) = h.split(1, 1);
    assert_eq!(h1, HyperRectangle(Point([0, 0]), Point([2, 1])));
    assert_eq!(h2, HyperRectangle(Point([0, 1]), Point([2, 2])));
}

#[test]
fn closest() {
    let h = HyperRectangle(Point([0, 0]), Point([2, 2]));
    let point = Point([-2, 3]);
    assert_eq!(h.closest(&point), Point([0, 2]));
}

#[test]
fn closest_inside_is_identity() {
    let h = HyperRectangle::new(Point([0, 0]), Point([4, 4]));
    assert_eq!(h.closest(&Point([1, 3])), Point([1, 3]));
    assert_eq!(h.distance(&Point([1, 3])), 0);
}

#[test]
fn hyper_rectangle_distance() {
    let h = HyperRectangle(Point([0, 0]), Point([2, 2]));
    let point = Point([-2, 3]);
    assert_eq!(h.distance(&point), 5);
    assert_eq!((h.distance(&point) as f64).sqrt(), 2.23606797749979);
}

#[test]
fn width() {
    let h = HyperRectangle(Point([1, 0]), Point([2, 2]));
    assert_eq!(h.width(), [1, 2]);
}

#[test]
fn width_full_range() {
    let h = HyperRectangle(Point([i32::MIN]), Point([i32::MAX]));
    assert_eq!(h.width(), [u32::MAX as i64]);
}

#[test]
fn range_of_points() {
    let points = vec![Point([3, -1]), Point([-2, 5]), Point([0, 0])];
    let (min, max) = get_range(&points);
    assert_eq!(min, Point([-2, -1]));
    assert_eq!(max, Point([3, 5]));
}
