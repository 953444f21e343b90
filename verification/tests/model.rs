use canvas_audit::canvas::{build, Diagnostic, RepeatedWrite};
use canvas_audit::geometry::{CanvasPixel, Color, Point};
use canvas_audit::model::{ColorRegistry, OccupancyIndex};
use canvas_audit::uniqueness::ColorClash;

fn pt(x: i16, y: i16) -> Point {
    Point::new(x, y)
}

#[test]
fn new_index_knows_no_artist() {
    let index = OccupancyIndex::new();
    assert_eq!(index.len(), 0);
    assert!(index.artists().is_empty());
    assert_eq!(index.position(1), None);
    assert!(index.pixels_of(1).is_none());
}

#[test]
fn insert_adds_artists_in_order_of_appearance() {
    let mut index = OccupancyIndex::new();
    assert!(index.insert(9, pt(0, 0)));
    assert!(index.insert(3, pt(1, 0)));
    assert!(index.insert(9, pt(2, 0)));
    assert!(index.insert(5, pt(3, 0)));
    assert_eq!(index.artists(), vec![9, 3, 5]);
    assert_eq!(index.len(), 3);
    assert_eq!(index.position(3), Some(1));
    assert_eq!(index.artist(2), 5);
    assert_eq!(index.pixels(0).points(), &vec![pt(0, 0), pt(2, 0)]);
    assert_eq!(index.pixels_of(5).unwrap().points(), &vec![pt(3, 0)]);
}

#[test]
fn insert_reports_a_repeated_write_of_the_same_artist_only() {
    let mut index = OccupancyIndex::new();
    assert!(index.insert(1, pt(4, 4)));
    assert!(!index.insert(1, pt(4, 4)));
    assert!(index.insert(2, pt(4, 4)));
    assert_eq!(index.pixels(0).len(), 1);
    assert_eq!(index.pixels(1).len(), 1);
}

#[test]
fn register_adds_an_artist_without_pixels_once() {
    let mut index = OccupancyIndex::new();
    assert_eq!(index.register(7), 0);
    assert_eq!(index.register(8), 1);
    assert_eq!(index.register(7), 0);
    assert_eq!(index.artists(), vec![7, 8]);
    assert!(index.pixels(0).is_empty());
    assert!(index.insert(7, pt(1, 1)));
    assert_eq!(index.pixels(0).len(), 1);
    assert_eq!(index.register(7), 0);
    assert_eq!(index.pixels(0).len(), 1);
}

#[test]
fn registry_keeps_the_first_claim() {
    let mut reg = ColorRegistry::new();
    let red = Color::new(255, 0, 0);
    let other = Color::new(0, 255, 0);
    assert_eq!(reg.claimant(&red), None);
    assert_eq!(reg.claim(red, 1), None);
    assert_eq!(reg.claimant(&red), Some(1));
    assert_eq!(reg.claim(red, 2), Some(1));
    assert_eq!(reg.claimant(&red), Some(1));
    assert_eq!(reg.claimant(&other), None);
    assert_eq!(reg.claim(other, 2), None);
    assert_eq!(reg.claimant(&other), Some(2));
}

#[test]
fn registry_tells_apart_colors_that_differ_in_one_channel() {
    let mut reg = ColorRegistry::new();
    assert_eq!(reg.claim(Color::new(1, 0, 0), 1), None);
    assert_eq!(reg.claim(Color::new(0, 1, 0), 2), None);
    assert_eq!(reg.claim(Color::new(0, 0, 1), 3), None);
    assert_eq!(reg.claim(Color::new(0, 1, 0), 9), Some(2));
    assert_eq!(reg.claimant(&Color::new(0, 0, 1)), Some(3));
    assert_eq!(reg.claimant(&Color::new(1, 0, 0)), Some(1));
    assert_eq!(reg.claimant(&Color::new(1, 1, 1)), None);
}

#[test]
fn build_of_an_empty_log_is_empty() {
    let model = build(Vec::new());
    assert!(model.canvas.is_empty());
    assert_eq!(model.occupancy.len(), 0);
    assert!(model.diagnostics.is_empty());
}

#[test]
fn build_folds_events_into_sets_and_claims() {
    let events = vec![
        CanvasPixel::new(2, 5, 5, 10, 10, 10),
        CanvasPixel::new(1, 0, 0, 20, 20, 20),
        CanvasPixel::new(2, 4, 5, 10, 10, 10),
        CanvasPixel::new(1, 0, 1, 20, 20, 20),
    ];
    let model = build(events.clone());
    assert_eq!(model.canvas, events);
    assert_eq!(model.occupancy.artists(), vec![2, 1]);
    assert_eq!(model.occupancy.pixels(0).points(), &vec![pt(4, 5), pt(5, 5)]);
    assert_eq!(model.occupancy.pixels(1).points(), &vec![pt(0, 0), pt(0, 1)]);
    assert_eq!(model.colors.claimant(&Color::new(10, 10, 10)), Some(2));
    assert_eq!(model.colors.claimant(&Color::new(20, 20, 20)), Some(1));
    assert_eq!(model.colors.claimant(&Color::new(30, 30, 30)), None);
    assert!(model.diagnostics.is_empty());
}

#[test]
fn build_notices_repeated_writes_and_clashes_in_log_order() {
    let c = Color::new(1, 2, 3);
    let events = vec![
        CanvasPixel::new(1, 0, 0, 1, 2, 3),
        CanvasPixel::new(1, 0, 0, 1, 2, 3),
        CanvasPixel::new(2, 0, 0, 1, 2, 3),
        CanvasPixel::new(2, 0, 0, 1, 2, 3),
    ];
    let model = build(events);
    assert_eq!(
        model.diagnostics,
        vec![
            Diagnostic::RepeatedWrite(RepeatedWrite { artist: 1, coord: pt(0, 0), event: 1 }),
            Diagnostic::ColorClash(ColorClash { color: c, claimant: 1, offender: 2, event: 2 }),
            Diagnostic::RepeatedWrite(RepeatedWrite { artist: 2, coord: pt(0, 0), event: 3 }),
            Diagnostic::ColorClash(ColorClash { color: c, claimant: 1, offender: 2, event: 3 }),
        ]
    );
    assert_eq!(model.occupancy.pixels(0).len(), 1);
    assert_eq!(model.occupancy.pixels(1).len(), 1);
}

#[test]
fn many_artists_are_found_at_their_positions() {
    let mut index = OccupancyIndex::new();
    for k in 0..500u32 {
        let artist = (k * 7919) % 100_003;
        assert_eq!(index.position(artist), None);
        assert!(index.insert(artist, pt((k % 100) as i16, (k / 100) as i16)));
        assert_eq!(index.position(artist), Some(k as usize));
    }
    assert_eq!(index.len(), 500);
    for k in 0..500u32 {
        let artist = (k * 7919) % 100_003;
        assert_eq!(index.position(artist), Some(k as usize));
        assert_eq!(index.artist(k as usize), artist);
        assert_eq!(index.register(artist), k as usize);
        assert!(!index.insert(artist, pt((k % 100) as i16, (k / 100) as i16)));
        assert_eq!(
            index.pixels_of(artist).unwrap().points(),
            &vec![pt((k % 100) as i16, (k / 100) as i16)]
        );
    }
    assert_eq!(index.len(), 500);
    assert_eq!(index.position(100_004), None);
}
