//! The cardinality checks: the number of artists, and the number of pixels
//! of each artist.

use vstd::prelude::*;
use crate::listing::of_each;
use crate::model::{Holding, OccupancyIndex};

verus! {

/// The log holds another number of artists than expected.
#[derive(Clone, Copy, Debug, PartialEq, Eq, Structural)]
pub struct ArtistCountMismatch {
    /// The number of artists that was expected.
    pub expected: usize,
    /// The number of distinct artists in the index.
    pub found: usize,
}

/// An artist painted fewer pixels than required.
#[derive(Clone, Copy, Debug, PartialEq, Eq, Structural)]
pub struct PixelShortfall {
    /// The artist.
    pub artist: u32,
    /// The number of distinct coordinates the artist painted.
    pub drawn: usize,
    /// The least number that was required.
    pub required: usize,
}

/// The shortfall of the artist at `i`, if the artist has fewer than
/// `required` pixels.
pub open spec fn shortfall_at(m: Seq<Holding>, i: int, required: usize) -> Option<PixelShortfall> {
    if m[i].pixels.len() < required {
        Some(PixelShortfall { artist: m[i].artist, drawn: m[i].pixels.len() as usize, required })
    } else {
        None
    }
}

/// The shortfall of each position of `m`, where the artist there has one.
pub open spec fn shortfall_pick(m: Seq<Holding>, required: usize) -> spec_fn(int) -> Option<
    PixelShortfall,
> {
    |i: int| shortfall_at(m, i, required)
}

/// The shortfalls of the first `n` artists, in the order of the index.
pub open spec fn shortfalls(m: Seq<Holding>, n: int, required: usize) -> Seq<PixelShortfall> {
    of_each(shortfall_pick(m, required), n)
}

/// No shortfall is listed for the first `n` artists exactly when each of
/// them has at least `required` pixels.
pub proof fn lemma_no_shortfall_means_enough(m: Seq<Holding>, n: int, required: usize)
    requires
        0 <= n <= m.len(),
    ensures
        shortfalls(m, n, required).len() == 0 <==> forall|i: int|
            0 <= i < n ==> (#[trigger] m[i]).pixels.len() >= required,
    decreases n,
{
    if n > 0 {
        lemma_no_shortfall_means_enough(m, n - 1, required);
        if shortfalls(m, n, required).len() == 0 {
            assert(m[n - 1].pixels.len() >= required);
        }
    }
}

/// Compares the number of distinct artists with the number expected.
pub fn check_enough_artists(index: &OccupancyIndex, num_artists: usize) -> (r: Result<
    (),
    ArtistCountMismatch,
>)
    ensures
        index@.len() == num_artists ==> r == Ok::<(), ArtistCountMismatch>(()),
        index@.len() != num_artists ==> r == Err::<(), ArtistCountMismatch>(
            ArtistCountMismatch { expected: num_artists, found: index@.len() as usize },
        ),
{
    let found = index.len();
    if found == num_artists {
        Ok(())
    } else {
        Err(ArtistCountMismatch { expected: num_artists, found })
    }
}

/// Compares the number of pixels of each artist with the least number
/// required.
///
/// Returns `Ok` when every artist has at least `num_pixels` pixels, and
/// otherwise the shortfall of each artist who has fewer, in the order of the
/// index.
pub fn check_all_artists_draw(index: &OccupancyIndex, num_pixels: usize) -> (r: Result<
    (),
    Vec<PixelShortfall>,
>)
    ensures
        r is Ok <==> shortfalls(index@, index@.len() as int, num_pixels).len() == 0,
        r matches Err(v) ==> v@ == shortfalls(index@, index@.len() as int, num_pixels),
{
    let n = index.len();
    let mut found: Vec<PixelShortfall> = Vec::new();
    let mut i: usize = 0;
    while i < n
        invariant
            i <= n == index@.len(),
            found@ == shortfalls(index@, i as int, num_pixels),
        decreases n - i,
    {
        let drawn = index.pixels(i).len();
        if drawn < num_pixels {
            found.push(PixelShortfall { artist: index.artist(i), drawn, required: num_pixels });
        }
        i = i + 1;
    }
    if found.len() == 0 {
        Ok(())
    } else {
        Err(found)
    }
}

} // verus!
