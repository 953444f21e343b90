use canvas_audit::canvas::{build, CanvasModel, RepeatedWrite};
use canvas_audit::cardinality::{ArtistCountMismatch, PixelShortfall};
use canvas_audit::connectivity::IslandFinding;
use canvas_audit::geometry::{AdjacencyRule, CanvasPixel, Color, Point};
use canvas_audit::model::{ColorRegistry, OccupancyIndex};
use canvas_audit::overlap::Overlap;
use canvas_audit::parse::read_log_to_canvas;
use canvas_audit::pattern::DuplicatePattern;
use canvas_audit::report::{analyze, Config, Severity};
use canvas_audit::uniqueness::ColorClash;

fn pt(x: i16, y: i16) -> Point {
    Point::new(x, y)
}

fn config(artists: usize, pixels: usize) -> Config {
    Config {
        expected_artist_count: artists,
        minimum_pixels_per_artist: pixels,
        adjacency_rule: AdjacencyRule::FourConnected,
        repeated_write_severity: Severity::Advisory,
    }
}

fn model_of(lines: &[&str]) -> CanvasModel {
    build(read_log_to_canvas(lines.iter().map(|l| l.to_string()).collect()).unwrap())
}

#[test]
fn a_sound_log_passes_every_check() {
    let model = model_of(&[
        "1, 0, 0, 255, 0, 0",
        "2, 5, 5, 0, 255, 0",
        "1, 1, 0, 255, 0, 0",
        "2, 5, 6, 0, 255, 0",
        "2, 5, 7, 0, 255, 0",
    ]);
    let cfg = config(2, 2);
    let report = analyze(&model, &cfg);
    assert_eq!(report.artist_count, None);
    assert!(report.shortfalls.is_empty());
    assert!(report.color_clashes.is_empty());
    assert!(report.overlaps.is_empty());
    assert!(report.islands.is_empty());
    assert!(report.duplicate_patterns.is_empty());
    assert!(report.repeated_writes.is_empty());
    assert!(report.passed(&cfg));
}

#[test]
fn one_failing_check_does_not_hide_another() {
    let model = model_of(&[
        "1, 0, 0, 9, 9, 9",
        "2, 0, 0, 9, 9, 9",
        "1, 3, 3, 9, 9, 9",
        "2, 3, 0, 9, 9, 9",
    ]);
    let cfg = config(3, 3);
    let report = analyze(&model, &cfg);
    assert_eq!(report.artist_count, Some(ArtistCountMismatch { expected: 3, found: 2 }));
    assert_eq!(
        report.shortfalls,
        vec![
            PixelShortfall { artist: 1, drawn: 2, required: 3 },
            PixelShortfall { artist: 2, drawn: 2, required: 3 },
        ]
    );
    let c = Color::new(9, 9, 9);
    assert_eq!(
        report.color_clashes,
        vec![
            ColorClash { color: c, claimant: 1, offender: 2, event: 1 },
            ColorClash { color: c, claimant: 1, offender: 2, event: 3 },
        ]
    );
    assert_eq!(report.overlaps, vec![Overlap { first: 1, second: 2, shared: vec![pt(0, 0)] }]);
    assert_eq!(
        report.islands,
        vec![
            IslandFinding::Scattered { artist: 1, islands: vec![vec![pt(0, 0)], vec![pt(3, 3)]] },
            IslandFinding::Scattered { artist: 2, islands: vec![vec![pt(0, 0)], vec![pt(3, 0)]] },
        ]
    );
    assert!(report.duplicate_patterns.is_empty());
    assert!(!report.passed(&cfg));
}

#[test]
fn each_check_alone_fails_the_run() {
    let base = ["1, 0, 0, 1, 1, 1", "1, 0, 1, 1, 1, 1", "2, 5, 5, 2, 2, 2", "2, 6, 5, 2, 2, 2"];
    let cfg = config(2, 2);
    assert!(analyze(&model_of(&base), &cfg).passed(&cfg));
    // wrong number of artists
    assert!(!analyze(&model_of(&base), &config(3, 2)).passed(&config(3, 2)));
    // too few pixels
    assert!(!analyze(&model_of(&base), &config(2, 3)).passed(&config(2, 3)));
    // a clash of colours
    let clash = ["1, 0, 0, 1, 1, 1", "1, 0, 1, 1, 1, 1", "2, 5, 5, 1, 1, 1", "2, 6, 5, 1, 1, 1"];
    let r = analyze(&model_of(&clash), &cfg);
    assert_eq!(r.color_clashes.len(), 2);
    assert!(r.overlaps.is_empty() && r.islands.is_empty() && r.duplicate_patterns.is_empty());
    assert!(!r.passed(&cfg));
    // an overlap
    let overlap = ["1, 0, 0, 1, 1, 1", "1, 0, 1, 1, 1, 1", "2, 0, 1, 2, 2, 2", "2, 1, 1, 2, 2, 2"];
    let r = analyze(&model_of(&overlap), &cfg);
    assert_eq!(r.overlaps.len(), 1);
    assert!(r.color_clashes.is_empty() && r.islands.is_empty() && r.duplicate_patterns.is_empty());
    assert!(!r.passed(&cfg));
    // islands
    let islands = ["1, 0, 0, 1, 1, 1", "1, 0, 2, 1, 1, 1", "2, 5, 5, 2, 2, 2", "2, 6, 5, 2, 2, 2"];
    let r = analyze(&model_of(&islands), &cfg);
    assert_eq!(r.islands.len(), 1);
    assert!(r.color_clashes.is_empty() && r.overlaps.is_empty() && r.duplicate_patterns.is_empty());
    assert!(!r.passed(&cfg));
    // equal shapes
    let same = ["1, 0, 0, 1, 1, 1", "1, 0, 1, 1, 1, 1", "2, 5, 5, 2, 2, 2", "2, 5, 6, 2, 2, 2"];
    let r = analyze(&model_of(&same), &cfg);
    assert_eq!(r.duplicate_patterns, vec![DuplicatePattern { first: 1, second: 2 }]);
    assert!(r.color_clashes.is_empty() && r.overlaps.is_empty() && r.islands.is_empty());
    assert!(!r.passed(&cfg));
}

#[test]
fn a_repeated_write_fails_the_run_only_where_it_is_fatal() {
    let model = model_of(&["1, 0, 0, 1, 1, 1", "1, 0, 0, 1, 1, 1", "1, 0, 1, 1, 1, 1"]);
    let advisory = config(1, 1);
    let fatal = Config { repeated_write_severity: Severity::Fatal, ..advisory };
    let report = analyze(&model, &advisory);
    assert_eq!(
        report.repeated_writes,
        vec![RepeatedWrite { artist: 1, coord: pt(0, 0), event: 1 }]
    );
    assert!(report.passed(&advisory));
    assert!(!report.passed(&fatal));
    let report = analyze(&model, &fatal);
    assert_eq!(report.repeated_writes.len(), 1);
    assert!(!report.passed(&fatal));
}

#[test]
fn the_adjacency_rule_of_the_configuration_is_used() {
    let model = model_of(&["1, 0, 0, 1, 1, 1", "1, 1, 1, 1, 1, 1"]);
    let four = config(1, 1);
    let eight = Config { adjacency_rule: AdjacencyRule::EightConnected, ..four };
    assert!(!analyze(&model, &four).passed(&four));
    assert!(analyze(&model, &eight).passed(&eight));
}

#[test]
fn running_the_suite_twice_gives_the_same_report() {
    let model = model_of(&[
        "3, 0, 0, 9, 9, 9",
        "1, 0, 0, 9, 9, 9",
        "3, 3, 3, 9, 9, 9",
        "1, 3, 0, 8, 8, 8",
        "2, 7, 7, 8, 8, 8",
        "2, 7, 7, 1, 1, 1",
        "4, -5, -5, 4, 4, 4",
    ]);
    let cfg = config(5, 2);
    let first = analyze(&model, &cfg);
    let second = analyze(&model, &cfg);
    assert_eq!(first, second);
    assert_eq!(format!("{:?}", first), format!("{:?}", second));
    assert_eq!(first.passed(&cfg), second.passed(&cfg));
    // The same events give the same report from a model built anew.
    let again = analyze(&build(model.canvas.clone()), &cfg);
    assert_eq!(first, again);
}

#[test]
fn an_artist_without_pixels_is_flagged_and_disturbs_no_other_check() {
    let mut occupancy = OccupancyIndex::new();
    occupancy.insert(1, pt(0, 0));
    occupancy.insert(1, pt(1, 0));
    occupancy.register(2);
    occupancy.insert(3, pt(10, 10));
    occupancy.insert(3, pt(11, 10));
    occupancy.register(4);
    let model = CanvasModel {
        canvas: vec![
            CanvasPixel::new(1, 0, 0, 1, 1, 1),
            CanvasPixel::new(1, 1, 0, 1, 1, 1),
            CanvasPixel::new(3, 10, 10, 3, 3, 3),
            CanvasPixel::new(3, 11, 10, 3, 3, 3),
        ],
        occupancy,
        colors: ColorRegistry::new(),
        diagnostics: Vec::new(),
    };
    let cfg = config(4, 1);
    let report = analyze(&model, &cfg);
    assert_eq!(report.artist_count, None);
    assert_eq!(
        report.shortfalls,
        vec![
            PixelShortfall { artist: 2, drawn: 0, required: 1 },
            PixelShortfall { artist: 4, drawn: 0, required: 1 },
        ]
    );
    assert_eq!(
        report.islands,
        vec![IslandFinding::NoPixels { artist: 2 }, IslandFinding::NoPixels { artist: 4 }]
    );
    assert_eq!(report.duplicate_patterns, vec![DuplicatePattern { first: 1, second: 3 }]);
    assert!(report.overlaps.is_empty());
    assert!(report.color_clashes.is_empty());
    assert!(!report.passed(&cfg));
}

#[test]
fn with_no_pixel_required_an_artist_without_pixels_has_no_shortfall() {
    let mut occupancy = OccupancyIndex::new();
    occupancy.register(2);
    let model = CanvasModel {
        canvas: Vec::new(),
        occupancy,
        colors: ColorRegistry::new(),
        diagnostics: Vec::new(),
    };
    let cfg = config(1, 0);
    let report = analyze(&model, &cfg);
    assert!(report.shortfalls.is_empty());
    assert_eq!(report.islands, vec![IslandFinding::NoPixels { artist: 2 }]);
}

#[test]
fn an_empty_log_fails_only_the_artist_count() {
    let model = build(Vec::new());
    let cfg = config(54, 1);
    let report = analyze(&model, &cfg);
    assert_eq!(report.artist_count, Some(ArtistCountMismatch { expected: 54, found: 0 }));
    assert!(report.shortfalls.is_empty());
    assert!(report.islands.is_empty());
    assert!(!report.passed(&cfg));
    let none = config(0, 1);
    assert!(analyze(&model, &none).passed(&none));
}
