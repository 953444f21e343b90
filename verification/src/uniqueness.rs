//! The uniqueness check: every colour belongs to one artist.
//!
//! The first artist who uses a colour claims it. Every later event in which
//! another artist uses that colour is a clash.

use vstd::prelude::*;
use crate::geometry::{CanvasPixel, Color};
use crate::listing::of_each;
use crate::model::{ColorRegistry, claimant};

verus! {

/// An event in which an artist used a colour that another artist had
/// claimed before.
#[derive(Clone, Copy, Debug, PartialEq, Eq, Structural)]
pub struct ColorClash {
    /// The colour used twice.
    pub color: Color,
    /// The artist who used the colour first.
    pub claimant: u32,
    /// The artist of the offending event.
    pub offender: u32,
    /// The offending event's position in the log, counted from 0.
    pub event: usize,
}

/// The clash that event `k` causes, if it causes one: the colour of the
/// event was claimed among the events before it, by another artist.
pub open spec fn color_clash_at(events: Seq<CanvasPixel>, k: int) -> Option<ColorClash> {
    match claimant(events, k, events[k].color) {
        Some(a) => if a != events[k].artist {
            Some(
                ColorClash {
                    color: events[k].color,
                    claimant: a,
                    offender: events[k].artist,
                    event: k as usize,
                },
            )
        } else {
            None
        },
        None => None,
    }
}

/// The clash of each event, where the event causes one.
pub open spec fn clash_pick(events: Seq<CanvasPixel>) -> spec_fn(int) -> Option<ColorClash> {
    |k: int| color_clash_at(events, k)
}

/// The clashes among the first `n` events, in log order.
pub open spec fn color_clashes(events: Seq<CanvasPixel>, n: int) -> Seq<ColorClash> {
    of_each(clash_pick(events), n)
}

/// The registry holds exactly the claims made in the first `n` events.
pub open spec fn registry_tracks(claims: Map<Color, u32>, events: Seq<CanvasPixel>, n: int) -> bool {
    forall|c: Color|
        (#[trigger] claimant(events, n, c)) == (if claims.contains_key(c) {
            Some(claims[c])
        } else {
            None
        })
}

/// A colour is claimed in the first `n` events exactly when one of them uses
/// it, by the artist of the earliest such event.
pub proof fn lemma_claimant(events: Seq<CanvasPixel>, n: int, color: Color)
    requires
        0 <= n <= events.len(),
    ensures
        claimant(events, n, color) is None <==> forall|k: int|
            0 <= k < n ==> (#[trigger] events[k]).color != color,
        claimant(events, n, color) matches Some(a) ==> exists|k: int|
            0 <= k < n && (#[trigger] events[k]).color == color && events[k].artist == a && forall|
                j: int,
            |
                0 <= j < k ==> (#[trigger] events[j]).color != color,
    decreases n,
{
    if n > 0 {
        lemma_claimant(events, n - 1, color);
        match claimant(events, n - 1, color) {
            Some(a) => {
                let k = choose|k: int|
                    0 <= k < n - 1 && (#[trigger] events[k]).color == color && events[k].artist == a
                        && forall|j: int| 0 <= j < k ==> (#[trigger] events[j]).color != color;
                assert(0 <= k < n && events[k].color == color);
            },
            None => {
                if events[n - 1].color == color {
                    assert(0 <= n - 1 < n && events[n - 1].color == color);
                }
            },
        }
    }
}

/// A claim, once made, stands: the claimant of a colour among the first `n`
/// events is its claimant among any longer prefix.
pub proof fn lemma_claim_stands(events: Seq<CanvasPixel>, n: int, m: int, color: Color)
    requires
        0 <= n <= m,
        claimant(events, n, color) is Some,
    ensures
        claimant(events, m, color) == claimant(events, n, color),
    decreases m - n,
{
    if n < m {
        lemma_claim_stands(events, n, m - 1, color);
    }
}

/// The first `n` events are free of clashes exactly when no two of them
/// share a colour across two artists.
pub proof fn lemma_no_clash_means_one_artist_per_color(events: Seq<CanvasPixel>, n: int)
    requires
        0 <= n <= events.len(),
    ensures
        color_clashes(events, n).len() == 0 <==> forall|i: int, j: int|
            0 <= i < n && 0 <= j < n && (#[trigger] events[i]).color == (#[trigger] events[j]).color
                ==> events[i].artist == events[j].artist,
    decreases n,
{
    if n > 0 {
        lemma_no_clash_means_one_artist_per_color(events, n - 1);
        let last = events[n - 1];
        lemma_claimant(events, n - 1, last.color);
        let before_clean = forall|i: int, j: int|
            0 <= i < n - 1 && 0 <= j < n - 1 && (#[trigger] events[i]).color == (
            #[trigger] events[j]).color ==> events[i].artist == events[j].artist;
        let now_clean = forall|i: int, j: int|
            0 <= i < n && 0 <= j < n && (#[trigger] events[i]).color == (#[trigger] events[j]).color
                ==> events[i].artist == events[j].artist;
        if color_clashes(events, n).len() == 0 {
            assert(color_clash_at(events, n - 1) is None);
            assert(color_clashes(events, n - 1).len() == 0);
            assert(before_clean);
            assert forall|i: int, j: int|
                0 <= i < n && 0 <= j < n && (#[trigger] events[i]).color == (
                #[trigger] events[j]).color implies events[i].artist == events[j].artist by {
                if i < n - 1 && j < n - 1 {
                } else if i == n - 1 && j == n - 1 {
                } else {
                    let o = if i == n - 1 {
                        j
                    } else {
                        i
                    };
                    assert(events[o].color == last.color);
                    let a = claimant(events, n - 1, last.color)->0;
                    let k = choose|k: int|
                        0 <= k < n - 1 && (#[trigger] events[k]).color == last.color
                            && events[k].artist == a;
                    assert(events[k].artist == events[o].artist);
                }
            }
        }
        if now_clean {
            assert(before_clean);
            match claimant(events, n - 1, last.color) {
                Some(a) => {
                    let k = choose|k: int|
                        0 <= k < n - 1 && (#[trigger] events[k]).color == last.color
                            && events[k].artist == a;
                    assert(events[k].artist == events[n - 1].artist);
                },
                None => {},
            }
            assert(color_clash_at(events, n - 1) is None);
        }
    }
}

/// Enters the colour of event `k` into the registry, which holds the claims
/// of the events before it. Returns the clash that the event causes, if it
/// causes one.
pub(crate) fn claim_color(registry: &mut ColorRegistry, events: &Vec<CanvasPixel>, k: usize) -> (clash:
    Option<ColorClash>)
    requires
        k < events@.len(),
        registry_tracks(old(registry)@, events@, k as int),
    ensures
        registry_tracks(final(registry)@, events@, k + 1),
        clash == color_clash_at(events@, k as int),
{
    let event = events[k];
    let ghost claims = registry@;
    assert(claimant(events@, k as int, event.color) == (if claims.contains_key(event.color) {
        Some(claims[event.color])
    } else {
        None
    }));
    let prior = registry.claim(event.color, event.artist);
    proof {
        assert forall|c: Color|
            (#[trigger] claimant(events@, k + 1, c)) == (if registry@.contains_key(c) {
                Some(registry@[c])
            } else {
                None
            }) by {
            assert(claimant(events@, k as int, c) == (if claims.contains_key(c) {
                Some(claims[c])
            } else {
                None
            }));
        }
    }
    match prior {
        Some(a) => {
            if a != event.artist {
                Some(ColorClash { color: event.color, claimant: a, offender: event.artist, event: k })
            } else {
                None
            }
        },
        None => None,
    }
}

/// Walks the log once in its order and collects every clash of colours.
///
/// Returns `Ok` when each colour is used by one artist only, and otherwise
/// all the clashes, in log order.
pub fn check_colors_unique(canvas: &Vec<CanvasPixel>) -> (r: Result<(), Vec<ColorClash>>)
    ensures
        r is Ok <==> color_clashes(canvas@, canvas@.len() as int).len() == 0,
        r matches Err(v) ==> v@ == color_clashes(canvas@, canvas@.len() as int),
{
    let mut registry = ColorRegistry::new();
    let mut clashes: Vec<ColorClash> = Vec::new();
    let mut k: usize = 0;
    while k < canvas.len()
        invariant
            k <= canvas@.len(),
            registry_tracks(registry@, canvas@, k as int),
            clashes@ == color_clashes(canvas@, k as int),
        decreases canvas@.len() - k,
    {
        match claim_color(&mut registry, canvas, k) {
            Some(clash) => {
                clashes.push(clash);
            },
            None => {},
        }
        k = k + 1;
    }
    if clashes.len() == 0 {
        Ok(())
    } else {
        Err(clashes)
    }
}

} // verus!
