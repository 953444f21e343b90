//! Building the canvas model from the log, in one pass.

use vstd::prelude::*;
use crate::geometry::{CanvasPixel, Point};
use crate::model::{
    Canvas,
    ColorRegistry,
    Holding,
    OccupancyIndex,
    artist_ids,
    artists_seen,
    has_artist,
    holdings_wf,
    lemma_pixels_of_holding,
    painted_by,
    pixels_of,
};
use crate::point_set::lemma_ascending_unique;
use crate::uniqueness::{ColorClash, claim_color, color_clash_at, registry_tracks};

verus! {

/// An event in which an artist painted a coordinate that the same artist
/// had painted before.
#[derive(Clone, Copy, Debug, PartialEq, Eq, Structural)]
pub struct RepeatedWrite {
    /// The artist.
    pub artist: u32,
    /// The coordinate painted again.
    pub coord: Point,
    /// The event's position in the log, counted from 0.
    pub event: usize,
}

/// What building the model reports about an event. Neither kind stops the
/// build.
#[derive(Clone, Copy, Debug, PartialEq, Eq, Structural)]
pub enum Diagnostic {
    /// The artist had painted the coordinate before.
    RepeatedWrite(RepeatedWrite),
    /// The colour had been claimed by another artist.
    ColorClash(ColorClash),
}

/// The repeated write that event `k` is, if it is one: an earlier event of
/// the same artist has the same coordinate.
pub open spec fn repeated_write_at(events: Seq<CanvasPixel>, k: int) -> Option<RepeatedWrite> {
    if painted_by(events, k, events[k].artist).contains(events[k].coord) {
        Some(RepeatedWrite { artist: events[k].artist, coord: events[k].coord, event: k as usize })
    } else {
        None
    }
}

/// The diagnostics for event `k`: the repeated write, if it is one, and
/// then the clash of colours, if it causes one.
pub open spec fn diagnostics_at(events: Seq<CanvasPixel>, k: int) -> Seq<Diagnostic> {
    let writes = match repeated_write_at(events, k) {
        Some(w) => seq![Diagnostic::RepeatedWrite(w)],
        None => Seq::empty(),
    };
    let clashes = match color_clash_at(events, k) {
        Some(c) => seq![Diagnostic::ColorClash(c)],
        None => Seq::empty(),
    };
    writes + clashes
}

/// The diagnostics for the first `n` events, in log order.
pub open spec fn diagnostics(events: Seq<CanvasPixel>, n: int) -> Seq<Diagnostic>
    decreases n,
{
    if n <= 0 {
        Seq::empty()
    } else {
        diagnostics(events, n - 1) + diagnostics_at(events, n - 1)
    }
}

/// The index `m` is the one of the first `n` events: it lists the artists
/// of these events in the order in which each first appears, and holds for
/// each artist exactly the coordinates that the artist paints in them.
pub open spec fn index_reflects(m: Seq<Holding>, events: Seq<CanvasPixel>, n: int) -> bool {
    &&& holdings_wf(m)
    &&& artist_ids(m) == artists_seen(events, n)
    &&& forall|a: u32| #[trigger] pixels_of(m, a) == painted_by(events, n, a)
}

/// The events have one index: two indexes that reflect the same events are
/// equal, holding by holding.
pub proof fn lemma_index_determined(
    first: Seq<Holding>,
    second: Seq<Holding>,
    events: Seq<CanvasPixel>,
    n: int,
)
    requires
        index_reflects(first, events, n),
        index_reflects(second, events, n),
    ensures
        first == second,
{
    assert(artist_ids(first).len() == artist_ids(second).len());
    assert forall|i: int| 0 <= i < first.len() implies first[i] == second[i] by {
        assert(artist_ids(first)[i] == artist_ids(second)[i]);
        let a = first[i].artist;
        lemma_pixels_of_holding(first, i);
        lemma_pixels_of_holding(second, i);
        assert(pixels_of(first, a) == painted_by(events, n, a));
        assert(pixels_of(second, a) == painted_by(events, n, a));
        lemma_ascending_unique(first[i].pixels, second[i].pixels);
    }
    assert(first =~= second);
}

/// The canvas model: the log and what is derived from it.
#[derive(Debug)]
pub struct CanvasModel {
    /// The events in log order.
    pub canvas: Canvas,
    /// The pixels of each artist.
    pub occupancy: OccupancyIndex,
    /// The first artist of each colour.
    pub colors: ColorRegistry,
    /// What was noticed while the model was built, in log order.
    pub diagnostics: Vec<Diagnostic>,
}

/// An artist has a holding exactly when the artist is among the ids.
proof fn lemma_has_artist_ids(m: Seq<Holding>, artist: u32)
    ensures
        has_artist(m, artist) <==> artist_ids(m).contains(artist),
{
    if has_artist(m, artist) {
        let i = choose|i: int| 0 <= i < m.len() && (#[trigger] m[i]).artist == artist;
        assert(artist_ids(m)[i] == artist);
    }
    if artist_ids(m).contains(artist) {
        let i = choose|i: int| 0 <= i < artist_ids(m).len() && artist_ids(m)[i] == artist;
        assert(m[i].artist == artist);
    }
}

/// Folds the events into the model: the pixels of each artist, the first
/// artist of each colour, and a diagnostic for each repeated write and for
/// each clash of colours.
pub fn build(events: Vec<CanvasPixel>) -> (model: CanvasModel)
    ensures
        model.canvas@ == events@,
        index_reflects(model.occupancy@, events@, events@.len() as int),
        registry_tracks(model.colors@, events@, events@.len() as int),
        model.diagnostics@ == diagnostics(events@, events@.len() as int),
{
    let mut occupancy = OccupancyIndex::new();
    let mut colors = ColorRegistry::new();
    let mut noticed: Vec<Diagnostic> = Vec::new();
    let mut k: usize = 0;
    proof {
        assert(artist_ids(occupancy@) =~= artists_seen(events@, 0));
        assert forall|a: u32| #[trigger] pixels_of(occupancy@, a) == painted_by(events@, 0, a) by {
            assert(pixels_of(occupancy@, a) =~= painted_by(events@, 0, a));
        }
    }
    while k < events.len()
        invariant
            k <= events@.len(),
            index_reflects(occupancy@, events@, k as int),
            registry_tracks(colors@, events@, k as int),
            noticed@ == diagnostics(events@, k as int),
        decreases events@.len() - k,
    {
        let event = events[k];
        let ghost held = occupancy@;
        let ghost so_far = noticed@;
        proof {
            lemma_has_artist_ids(held, event.artist);
            assert(pixels_of(held, event.artist) == painted_by(events@, k as int, event.artist));
        }
        let fresh = occupancy.insert(event.artist, event.coord);
        if !fresh {
            noticed.push(
                Diagnostic::RepeatedWrite(
                    RepeatedWrite { artist: event.artist, coord: event.coord, event: k },
                ),
            );
        }
        match claim_color(&mut colors, &events, k) {
            Some(clash) => {
                noticed.push(Diagnostic::ColorClash(clash));
            },
            None => {},
        }
        proof {
            let now = occupancy@;
            assert(noticed@ =~= so_far + diagnostics_at(events@, k as int));
            assert forall|a: u32| #[trigger] pixels_of(now, a) == painted_by(events@, k + 1, a) by {
                assert(pixels_of(held, a) == painted_by(events@, k as int, a));
                if a == event.artist {
                    assert(pixels_of(now, a) == pixels_of(held, a).insert(event.coord));
                } else {
                    assert(pixels_of(now, a) == pixels_of(held, a));
                }
                assert forall|p: Point|
                    pixels_of(now, a).contains(p) <==> painted_by(events@, k + 1, a).contains(p) by {
                    if painted_by(events@, k + 1, a).contains(p) {
                        let e = choose|e: int|
                            0 <= e < k + 1 && e < events@.len() && (#[trigger] events@[e]).artist == a
                                && events@[e].coord == p;
                        if e < k {
                            assert(painted_by(events@, k as int, a).contains(p));
                        }
                    }
                    if painted_by(events@, k as int, a).contains(p) {
                        let e = choose|e: int|
                            0 <= e < k && e < events@.len() && (#[trigger] events@[e]).artist == a
                                && events@[e].coord == p;
                        assert(0 <= e < k + 1 && events@[e].artist == a && events@[e].coord == p);
                    }
                    if a == event.artist && p == event.coord {
                        assert(events@[k as int].artist == a && events@[k as int].coord == p);
                    }
                }
                assert(pixels_of(now, a) =~= painted_by(events@, k + 1, a));
            }
        }
        k = k + 1;
    }
    CanvasModel { canvas: events, occupancy, colors, diagnostics: noticed }
}

} // verus!
