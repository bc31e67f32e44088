use senses::point::Point;
use senses::visual_object::{contains_point, VisualObject};

#[test]
fn empty_object_has_no_bounding_box() {
    let mut o = VisualObject::new(Point::new(0, 0));
    assert_eq!(o.size(), None);
    assert_eq!(o.point_map(), None);
}

#[test]
fn bounding_box_is_componentwise_min_max() {
    let mut o = VisualObject::new(Point::new(0, 0));
    o.push(Point::new(1, 5));
    o.push(Point::new(3, 2));
    let bb = o.size();
    assert_eq!(bb, Some((Point::new(1, 2), Point::new(3, 5))));
}

#[test]
fn single_point_box_is_degenerate() {
    let mut o = VisualObject::new(Point::new(0, 0));
    o.push(Point::new(7, 7));
    assert_eq!(o.size(), Some((Point::new(7, 7), Point::new(7, 7))));
}

#[test]
fn push_invalidates_the_cached_box() {
    let mut o = VisualObject::new(Point::new(0, 0));
    o.push(Point::new(2, 2));
    assert_eq!(o.size(), Some((Point::new(2, 2), Point::new(2, 2))));
    o.push(Point::new(0, 4));
    assert_eq!(o.size(), Some((Point::new(0, 2), Point::new(2, 4))));
}

#[test]
fn repeated_size_queries_agree() {
    let mut o = VisualObject::new(Point::new(0, 0));
    o.push(Point::new(4, 1));
    o.push(Point::new(2, 9));
    let first = o.size();
    let second = o.size();
    assert_eq!(first, second);
}

#[test]
fn point_map_rasterizes_the_local_patch() {
    let mut o = VisualObject::new(Point::new(0, 0));
    o.push(Point::new(1, 1));
    o.push(Point::new(2, 2));
    let m = o.point_map().expect("non-empty object");
    assert_eq!(m.len(), 2);
    assert_eq!(m[0], vec![true, false]);
    assert_eq!(m[1], vec![false, true]);
}

#[test]
fn point_map_of_single_point_is_one_cell() {
    let mut o = VisualObject::new(Point::new(3, 4));
    o.push(Point::new(10, 20));
    let m = o.point_map().expect("non-empty object");
    assert_eq!(m, vec![vec![true]]);
}

#[test]
fn contains_point_is_exact() {
    let pts = vec![Point::new(1, 2), Point::new(3, 4)];
    assert!(contains_point(&pts, Point::new(1, 2)));
    assert!(contains_point(&pts, Point::new(3, 4)));
    assert!(!contains_point(&pts, Point::new(2, 1)));
    assert!(!contains_point(&pts, Point::new(0, 0)));
}

#[test]
fn points_are_equal_by_coordinates() {
    assert_eq!(Point::new(5, 6), Point::new(5, 6));
    assert_ne!(Point::new(5, 6), Point::new(6, 5));
}
