use canvas_audit::geometry::{Offset, Point};
use canvas_audit::model::OccupancyIndex;
use canvas_audit::pattern::{
    check_no_repeating_patterns, normalize_points, DuplicatePattern, ShapeError,
};
use canvas_audit::point_set::PointSet;

fn pt(x: i16, y: i16) -> Point {
    Point::new(x, y)
}

fn off(dx: i32, dy: i32) -> Offset {
    Offset { dx, dy }
}

fn set_of(points: &[(i16, i16)]) -> PointSet {
    let mut s = PointSet::new();
    for &(x, y) in points {
        s.insert(pt(x, y));
    }
    s
}

fn index_of(pixels: &[(u32, i16, i16)]) -> OccupancyIndex {
    let mut index = OccupancyIndex::new();
    for &(a, x, y) in pixels {
        index.insert(a, pt(x, y));
    }
    index
}

#[test]
fn normalizing_the_empty_set_fails() {
    assert_eq!(normalize_points(&PointSet::new()), Err(ShapeError::NoPixels));
}

#[test]
fn the_anchor_is_the_rightmost_point() {
    // Sorted: (2,4) (2,9) (3,0) (5,-7); the anchor is (5,-7).
    let s = set_of(&[(3, 0), (2, 9), (2, 4), (5, -7)]);
    assert_eq!(
        normalize_points(&s),
        Ok(vec![off(-3, 11), off(-3, 16), off(-2, 7), off(0, 0)])
    );
}

#[test]
fn two_points_side_by_side_are_measured_from_the_right_one() {
    let s = set_of(&[(10, 10), (11, 10)]);
    assert_eq!(normalize_points(&s), Ok(vec![off(-1, 0), off(0, 0)]));
}

#[test]
fn among_rightmost_points_the_anchor_is_the_one_with_the_greatest_y() {
    let a = set_of(&[(4, 1), (4, 0)]);
    let b = set_of(&[(4, 0), (4, 1)]);
    assert_eq!(normalize_points(&a), Ok(vec![off(0, -1), off(0, 0)]));
    assert_eq!(normalize_points(&a), normalize_points(&b));
    let c = set_of(&[(4, -5), (1, 9), (4, 3), (4, 0)]);
    assert_eq!(
        normalize_points(&c),
        Ok(vec![off(-3, 6), off(0, -8), off(0, -3), off(0, 0)])
    );
}

#[test]
fn a_single_point_normalizes_to_the_origin() {
    assert_eq!(normalize_points(&set_of(&[(-9, 12)])), Ok(vec![off(0, 0)]));
}

#[test]
fn offsets_span_the_whole_canvas_without_wrapping() {
    let s = set_of(&[(-32768, 32767), (32767, -32768)]);
    assert_eq!(normalize_points(&s), Ok(vec![off(-65535, 65535), off(0, 0)]));
    let t = set_of(&[(-32768, -32768), (32767, 32767)]);
    assert_eq!(normalize_points(&t), Ok(vec![off(-65535, -65535), off(0, 0)]));
}

#[test]
fn no_offset_points_to_the_right_and_the_anchor_comes_last() {
    let mut s = PointSet::new();
    for k in 0..60i16 {
        s.insert(pt((k * 37) % 23 - 11, (k * 91) % 17 - 8));
        let n = normalize_points(&s).unwrap();
        assert_eq!(n.len(), s.len());
        assert_eq!(n[n.len() - 1], off(0, 0));
        let anchor = *s.points().iter().max().unwrap();
        for (o, p) in n.iter().zip(s.points().iter()) {
            assert!(o.dx <= 0);
            assert!(o.dx < 0 || o.dy <= 0);
            assert_eq!(o.dx, p.x as i32 - anchor.x as i32);
            assert_eq!(o.dy, p.y as i32 - anchor.y as i32);
        }
    }
}

#[test]
fn moving_a_set_does_not_change_its_normal_form() {
    let shape = [(0i16, 0i16), (1, 0), (1, 1), (3, -2), (3, 5)];
    let here = set_of(&shape);
    for &(dx, dy) in &[(0i16, 0i16), (7, 0), (0, -9), (-100, 200), (32000, -32000)] {
        let moved: Vec<(i16, i16)> = shape.iter().map(|&(x, y)| (x + dx, y + dy)).collect();
        assert_eq!(normalize_points(&set_of(&moved)), normalize_points(&here));
    }
}

#[test]
fn a_moved_shape_is_a_duplicate() {
    let index = index_of(&[(1, 0, 0), (1, 1, 0), (2, 10, 10), (2, 11, 10)]);
    assert_eq!(
        check_no_repeating_patterns(&index),
        Err(vec![DuplicatePattern { first: 1, second: 2 }])
    );
}

#[test]
fn a_turned_shape_is_no_duplicate() {
    let index = index_of(&[(1, 0, 0), (1, 1, 0), (3, 0, 0), (3, 0, 1)]);
    assert_eq!(check_no_repeating_patterns(&index), Ok(()));
}

#[test]
fn a_mirrored_shape_is_no_duplicate() {
    let index = index_of(&[(1, 0, 0), (1, 1, 0), (1, 1, 1), (2, 5, 5), (2, 6, 5), (2, 5, 6)]);
    assert_eq!(check_no_repeating_patterns(&index), Ok(()));
}

#[test]
fn shapes_of_different_size_are_no_duplicates() {
    let index = index_of(&[(1, 0, 0), (1, 1, 0), (2, 5, 5), (2, 6, 5), (2, 7, 5)]);
    assert_eq!(check_no_repeating_patterns(&index), Ok(()));
}

#[test]
fn every_pair_of_equal_shapes_is_reported_once() {
    let index = index_of(&[
        (7, 0, 0),
        (8, 3, 3),
        (8, 3, 4),
        (9, -5, -5),
        (5, 100, 100),
        (6, 0, 9),
        (6, 0, 10),
    ]);
    assert_eq!(
        check_no_repeating_patterns(&index),
        Err(vec![
            DuplicatePattern { first: 7, second: 9 },
            DuplicatePattern { first: 7, second: 5 },
            DuplicatePattern { first: 8, second: 6 },
            DuplicatePattern { first: 9, second: 5 },
        ])
    );
}

#[test]
fn artists_without_pixels_are_in_no_pair() {
    let mut index = OccupancyIndex::new();
    index.register(1);
    index.register(2);
    index.insert(3, pt(0, 0));
    assert_eq!(check_no_repeating_patterns(&index), Ok(()));
}

#[test]
fn the_same_shape_at_the_same_place_is_a_duplicate_too() {
    let index = index_of(&[(1, 2, 2), (2, 2, 2)]);
    assert_eq!(
        check_no_repeating_patterns(&index),
        Err(vec![DuplicatePattern { first: 1, second: 2 }])
    );
}

#[test]
fn order_of_painting_does_not_change_the_shape() {
    let index = index_of(&[(1, 1, 1), (1, 0, 0), (1, 0, 1), (2, 20, 20), (2, 20, 21), (2, 21, 21)]);
    assert_eq!(
        check_no_repeating_patterns(&index),
        Err(vec![DuplicatePattern { first: 1, second: 2 }])
    );
}
