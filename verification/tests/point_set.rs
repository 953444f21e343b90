use canvas_audit::geometry::Point;
use canvas_audit::point_set::PointSet;

fn pt(x: i16, y: i16) -> Point {
    Point::new(x, y)
}

#[test]
fn new_set_is_empty() {
    let s = PointSet::new();
    assert!(s.is_empty());
    assert_eq!(s.len(), 0);
    assert!(s.points().is_empty());
    assert!(!s.contains(&pt(0, 0)));
    assert_eq!(s.index_of(&pt(0, 0)), None);
}

#[test]
fn insert_reports_whether_the_point_is_new() {
    let mut s = PointSet::new();
    assert!(s.insert(pt(1, 1)));
    assert!(!s.insert(pt(1, 1)));
    assert!(s.insert(pt(1, 2)));
    assert_eq!(s.len(), 2);
    assert!(!s.is_empty());
}

#[test]
fn points_ascend_by_x_then_y_whatever_the_order_of_insertion() {
    let mut s = PointSet::new();
    for p in [pt(2, 0), pt(0, 5), pt(1, -3), pt(0, -5), pt(2, -1), pt(0, 5)] {
        s.insert(p);
    }
    assert_eq!(s.points(), &vec![pt(0, -5), pt(0, 5), pt(1, -3), pt(2, -1), pt(2, 0)]);
}

#[test]
fn index_of_finds_members_at_their_rank() {
    let s = PointSet::from_points(&vec![pt(5, 5), pt(-1, 0), pt(3, 3)]);
    assert_eq!(s.index_of(&pt(-1, 0)), Some(0));
    assert_eq!(s.index_of(&pt(3, 3)), Some(1));
    assert_eq!(s.index_of(&pt(5, 5)), Some(2));
    assert_eq!(s.index_of(&pt(4, 4)), None);
    assert_eq!(s.index_of(&pt(-2, 0)), None);
    assert_eq!(s.index_of(&pt(6, 0)), None);
    assert!(s.contains(&pt(3, 3)));
    assert!(!s.contains(&pt(3, 4)));
}

#[test]
fn from_points_drops_repetitions() {
    let s = PointSet::from_points(&vec![pt(1, 1), pt(1, 1), pt(0, 0), pt(1, 1)]);
    assert_eq!(s.len(), 2);
    assert_eq!(s.points(), &vec![pt(0, 0), pt(1, 1)]);
}

#[test]
fn equal_sets_list_their_points_alike() {
    let a = PointSet::from_points(&vec![pt(3, 1), pt(1, 2), pt(2, 9)]);
    let b = PointSet::from_points(&vec![pt(2, 9), pt(3, 1), pt(1, 2), pt(3, 1)]);
    assert_eq!(a.points(), b.points());
}

#[test]
fn clone_has_the_same_points_and_lives_apart() {
    let mut a = PointSet::from_points(&vec![pt(1, 1)]);
    let b = a.clone();
    a.insert(pt(0, 0));
    assert_eq!(b.points(), &vec![pt(1, 1)]);
    assert_eq!(a.points(), &vec![pt(0, 0), pt(1, 1)]);
}

#[test]
fn the_corners_of_the_canvas_are_points_like_any_other() {
    let mut s = PointSet::new();
    assert!(s.insert(pt(32767, 32767)));
    assert!(s.insert(pt(-32768, -32768)));
    assert!(s.insert(pt(-32768, 32767)));
    assert!(s.insert(pt(32767, -32768)));
    assert_eq!(
        s.points(),
        &vec![pt(-32768, -32768), pt(-32768, 32767), pt(32767, -32768), pt(32767, 32767)]
    );
}

#[test]
fn many_points_stay_sorted_and_found() {
    let mut s = PointSet::new();
    let mut n = 0usize;
    for k in 0..200i16 {
        let p = pt((k * 37) % 23 - 11, (k * 91) % 17 - 8);
        if s.insert(p) {
            n += 1;
        }
        assert!(s.contains(&p));
    }
    assert_eq!(s.len(), n);
    let v = s.points();
    for i in 1..v.len() {
        assert!(v[i - 1].is_before(&v[i]));
    }
    for i in 0..v.len() {
        assert_eq!(s.index_of(&v[i]), Some(i));
    }
}
