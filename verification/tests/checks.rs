use canvas_audit::cardinality::{
    check_all_artists_draw, check_enough_artists, ArtistCountMismatch, PixelShortfall,
};
use canvas_audit::geometry::{CanvasPixel, Color, Point};
use canvas_audit::model::OccupancyIndex;
use canvas_audit::overlap::{check_no_overlapping, Overlap};
use canvas_audit::uniqueness::{check_colors_unique, ColorClash};

fn pt(x: i16, y: i16) -> Point {
    Point::new(x, y)
}

fn index_of(pixels: &[(u32, i16, i16)]) -> OccupancyIndex {
    let mut index = OccupancyIndex::new();
    for &(a, x, y) in pixels {
        index.insert(a, pt(x, y));
    }
    index
}

#[test]
fn artist_count_passes_on_the_expected_number() {
    let index = index_of(&[(1, 0, 0), (2, 1, 1), (1, 2, 2)]);
    assert_eq!(check_enough_artists(&index, 2), Ok(()));
}

#[test]
fn artist_count_reports_both_numbers() {
    let index = index_of(&[(1, 0, 0), (2, 1, 1)]);
    assert_eq!(
        check_enough_artists(&index, 54),
        Err(ArtistCountMismatch { expected: 54, found: 2 })
    );
    assert_eq!(
        check_enough_artists(&index, 1),
        Err(ArtistCountMismatch { expected: 1, found: 2 })
    );
    assert_eq!(
        check_enough_artists(&OccupancyIndex::new(), 1),
        Err(ArtistCountMismatch { expected: 1, found: 0 })
    );
    assert_eq!(check_enough_artists(&OccupancyIndex::new(), 0), Ok(()));
}

#[test]
fn every_artist_draws_enough() {
    let index = index_of(&[(1, 0, 0), (2, 1, 1), (1, 2, 2), (2, 3, 3)]);
    assert_eq!(check_all_artists_draw(&index, 2), Ok(()));
    assert_eq!(check_all_artists_draw(&index, 0), Ok(()));
}

#[test]
fn shortfalls_name_artist_and_counts_in_index_order() {
    let index = index_of(&[(5, 0, 0), (6, 1, 1), (6, 1, 2), (6, 1, 3), (7, 9, 9), (7, 9, 8)]);
    assert_eq!(
        check_all_artists_draw(&index, 3),
        Err(vec![
            PixelShortfall { artist: 5, drawn: 1, required: 3 },
            PixelShortfall { artist: 7, drawn: 2, required: 3 },
        ])
    );
}

#[test]
fn repeated_writes_do_not_count_as_pixels() {
    let index = index_of(&[(1, 0, 0), (1, 0, 0), (1, 0, 0)]);
    assert_eq!(
        check_all_artists_draw(&index, 2),
        Err(vec![PixelShortfall { artist: 1, drawn: 1, required: 2 }])
    );
}

#[test]
fn zero_pixel_artist_has_a_shortfall_of_zero_drawn() {
    let mut index = index_of(&[(1, 0, 0)]);
    index.register(2);
    assert_eq!(
        check_all_artists_draw(&index, 1),
        Err(vec![PixelShortfall { artist: 2, drawn: 0, required: 1 }])
    );
    assert_eq!(check_all_artists_draw(&index, 0), Ok(()));
}

#[test]
fn two_artists_with_one_color_clash_once() {
    let canvas = vec![CanvasPixel::new(1, 0, 0, 1, 2, 3), CanvasPixel::new(2, 1, 1, 1, 2, 3)];
    assert_eq!(
        check_colors_unique(&canvas),
        Err(vec![ColorClash { color: Color::new(1, 2, 3), claimant: 1, offender: 2, event: 1 }])
    );
}

#[test]
fn an_artist_may_reuse_the_own_color() {
    let canvas = vec![
        CanvasPixel::new(1, 0, 0, 1, 2, 3),
        CanvasPixel::new(1, 1, 0, 1, 2, 3),
        CanvasPixel::new(2, 5, 5, 3, 2, 1),
        CanvasPixel::new(1, 2, 0, 1, 2, 3),
    ];
    assert_eq!(check_colors_unique(&canvas), Ok(()));
    assert_eq!(check_colors_unique(&Vec::new()), Ok(()));
}

#[test]
fn every_offending_event_is_a_clash_and_the_first_user_keeps_the_claim() {
    let c = Color::new(9, 9, 9);
    let canvas = vec![
        CanvasPixel::new(4, 0, 0, 9, 9, 9),
        CanvasPixel::new(5, 1, 0, 9, 9, 9),
        CanvasPixel::new(4, 2, 0, 9, 9, 9),
        CanvasPixel::new(6, 3, 0, 9, 9, 9),
        CanvasPixel::new(5, 4, 0, 9, 9, 9),
    ];
    assert_eq!(
        check_colors_unique(&canvas),
        Err(vec![
            ColorClash { color: c, claimant: 4, offender: 5, event: 1 },
            ColorClash { color: c, claimant: 4, offender: 6, event: 3 },
            ColorClash { color: c, claimant: 4, offender: 5, event: 4 },
        ])
    );
}

#[test]
fn an_artist_with_two_colors_is_no_clash() {
    let canvas = vec![CanvasPixel::new(1, 0, 0, 1, 1, 1), CanvasPixel::new(1, 1, 0, 2, 2, 2)];
    assert_eq!(check_colors_unique(&canvas), Ok(()));
}

#[test]
fn two_artists_on_one_coordinate_overlap_once() {
    let index = index_of(&[(1, 0, 0), (2, 0, 0)]);
    assert_eq!(
        check_no_overlapping(&index),
        Err(vec![Overlap { first: 1, second: 2, shared: vec![pt(0, 0)] }])
    );
}

#[test]
fn disjoint_artists_do_not_overlap() {
    let index = index_of(&[(1, 0, 0), (2, 0, 1), (3, 1, 0), (1, 1, 1)]);
    assert_eq!(check_no_overlapping(&index), Ok(()));
    assert_eq!(check_no_overlapping(&OccupancyIndex::new()), Ok(()));
}

#[test]
fn an_overlap_lists_all_shared_coordinates_in_ascending_order() {
    let index = index_of(&[
        (1, 3, 3),
        (1, 0, 0),
        (1, 1, 5),
        (1, 1, 2),
        (2, 1, 2),
        (2, 3, 3),
        (2, 7, 7),
        (2, 0, 0),
    ]);
    assert_eq!(
        check_no_overlapping(&index),
        Err(vec![Overlap { first: 1, second: 2, shared: vec![pt(0, 0), pt(1, 2), pt(3, 3)] }])
    );
}

#[test]
fn each_unordered_pair_is_reported_once_by_index_order() {
    let index = index_of(&[(3, 0, 0), (1, 0, 0), (2, 0, 0), (2, 5, 5), (1, 5, 5), (4, 8, 8)]);
    assert_eq!(
        check_no_overlapping(&index),
        Err(vec![
            Overlap { first: 3, second: 1, shared: vec![pt(0, 0)] },
            Overlap { first: 3, second: 2, shared: vec![pt(0, 0)] },
            Overlap { first: 1, second: 2, shared: vec![pt(0, 0), pt(5, 5)] },
        ])
    );
}

#[test]
fn repeated_write_of_one_artist_is_no_overlap() {
    let index = index_of(&[(1, 0, 0), (1, 0, 0)]);
    assert_eq!(check_no_overlapping(&index), Ok(()));
}
