use puzzlegrid::boxes::BoundingRect;
use puzzlegrid::boxes::Point;

#[test]
fn points_drift_linearly() {
    let p = Point { pos: (9, 1), vel: (0, 2) };
    assert_eq!(p.at_time(0), (9, 1));
    assert_eq!(p.at_time(3), (9, 7));
    let q = Point { pos: (-2, -4), vel: (2, 2) };
    assert_eq!(q.at_time(3), (4, 2));
}

#[test]
fn rect_grows_to_cover_points() {
    let mut r = BoundingRect::new();
    r.add((3, -1));
    r.add((-2, 4));
    assert_eq!(r.min, (-2, -1));
    assert_eq!(r.max, (3, 4));
    assert_eq!(r.width(), 6);
    assert_eq!(r.height(), 6);
    assert_eq!(r.area(), 36);
}

#[test]
fn single_point_rect_has_unit_area() {
    let mut r = BoundingRect::new();
    r.add((5, 5));
    assert_eq!(r.width(), 1);
    assert_eq!(r.height(), 1);
    assert_eq!(r.area(), 1);
}
