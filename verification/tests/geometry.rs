use canvas_audit::geometry::{are_adjacent, AdjacencyRule, CanvasPixel, Color, Offset, Point};

#[test]
fn point_new_keeps_both_coordinates() {
    let p = Point::new(3, -4);
    assert_eq!(p.x, 3);
    assert_eq!(p.y, -4);
}

#[test]
fn color_new_keeps_the_channels() {
    let c = Color::new(1, 2, 3);
    assert_eq!((c.r, c.g, c.b), (1, 2, 3));
    assert_eq!(c, Color { r: 1, g: 2, b: 3 });
    assert_ne!(c, Color { r: 3, g: 2, b: 1 });
}

#[test]
fn color_pack_is_the_weighted_sum() {
    assert_eq!(Color::new(1, 2, 3).pack(), 65536 + 512 + 3);
    assert_eq!(Color::new(255, 255, 255).pack(), 16777215);
    assert_eq!(Color::new(0, 0, 0).pack(), 0);
}

#[test]
fn canvas_pixel_new_builds_point_and_color() {
    let e = CanvasPixel::new(7, -1, 2, 10, 20, 30);
    assert_eq!(e.artist, 7);
    assert_eq!(e.coord, Point { x: -1, y: 2 });
    assert_eq!(e.color, Color { r: 10, g: 20, b: 30 });
}

#[test]
fn order_goes_by_x_then_by_y() {
    let a = Point::new(1, 5);
    let b = Point::new(2, 0);
    let c = Point::new(1, 6);
    assert!(a.is_before(&b));
    assert!(!b.is_before(&a));
    assert!(a.is_before(&c));
    assert!(!c.is_before(&a));
    assert!(!a.is_before(&a));
}

#[test]
fn displacement_covers_the_whole_range() {
    let far = Point::new(32767, -32768);
    let anchor = Point::new(-32768, 32767);
    assert_eq!(far.displacement_from(&anchor), Offset { dx: 65535, dy: -65535 });
    assert_eq!(anchor.displacement_from(&anchor), Offset { dx: 0, dy: 0 });
}

#[test]
fn diagonal_contact_connects_only_under_the_eight_rule() {
    let p = Point::new(0, 0);
    let q = Point::new(1, 1);
    assert!(!are_adjacent(AdjacencyRule::FourConnected, &p, &q));
    assert!(are_adjacent(AdjacencyRule::EightConnected, &p, &q));
    assert!(are_adjacent(AdjacencyRule::FourConnected, &p, &Point::new(0, -1)));
    assert!(!are_adjacent(AdjacencyRule::EightConnected, &p, &p));
    assert!(!are_adjacent(AdjacencyRule::EightConnected, &p, &Point::new(2, 0)));
}

#[test]
fn the_operators_order_points_by_x_then_by_y() {
    let a = Point::new(1, 5);
    let b = Point::new(2, 0);
    let c = Point::new(1, 6);
    assert!(a < b && b > a && a <= b && b >= a);
    assert!(a < c && c < b);
    assert!(a <= a && a >= a && !(a < a) && !(a > a));
    assert_eq!(a.partial_cmp(&b), Some(std::cmp::Ordering::Less));
    assert_eq!(b.partial_cmp(&a), Some(std::cmp::Ordering::Greater));
    assert_eq!(a.partial_cmp(&a), Some(std::cmp::Ordering::Equal));
    assert_eq!(a.cmp(&c), std::cmp::Ordering::Less);
}

#[test]
fn sorting_and_the_greatest_point_follow_the_same_order() {
    let mut v = vec![Point::new(2, 0), Point::new(0, 5), Point::new(2, -1), Point::new(0, -5)];
    assert_eq!(v.iter().max(), Some(&Point::new(2, 0)));
    assert_eq!(v.iter().min(), Some(&Point::new(0, -5)));
    v.sort();
    assert_eq!(v, vec![Point::new(0, -5), Point::new(0, 5), Point::new(2, -1), Point::new(2, 0)]);
    for i in 1..v.len() {
        assert!(v[i - 1].is_before(&v[i]));
    }
}
