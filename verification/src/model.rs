//! The canvas model: the log of paint events and the two indexes derived
//! from it, the pixels of each artist and the first artist of each colour.

use vstd::prelude::*;
use std::collections::HashMap;
use crate::geometry::{CanvasPixel, Color, Point};
use crate::point_set::{PointSet, strictly_ascending};

verus! {

/// The log: the paint events in the order in which they were recorded.
pub type Canvas = Vec<CanvasPixel>;

/// What the occupancy index holds for one artist: the artist's id and the
/// coordinates the artist painted, in ascending order.
pub struct Holding {
    pub artist: u32,
    pub pixels: Seq<Point>,
}

/// No artist has two holdings, and the pixels of each holding strictly
/// ascend.
pub open spec fn holdings_wf(m: Seq<Holding>) -> bool {
    &&& forall|i: int, j: int|
        0 <= i < j < m.len() ==> (#[trigger] m[i]).artist != (#[trigger] m[j]).artist
    &&& forall|i: int| 0 <= i < m.len() ==> strictly_ascending((#[trigger] m[i]).pixels)
}

/// Whether `artist` has a holding in `m`.
pub open spec fn has_artist(m: Seq<Holding>, artist: u32) -> bool {
    exists|i: int| 0 <= i < m.len() && (#[trigger] m[i]).artist == artist
}

/// The coordinates that `m` holds for `artist`; none for an artist without
/// a holding.
pub open spec fn pixels_of(m: Seq<Holding>, artist: u32) -> Set<Point> {
    Set::new(
        |p: Point|
            exists|i: int|
                0 <= i < m.len() && (#[trigger] m[i]).artist == artist && m[i].pixels.contains(p),
    )
}

/// In a well-formed index the coordinates of the artist at `i` are those of
/// the holding at `i`.
pub proof fn lemma_pixels_of_holding(m: Seq<Holding>, i: int)
    requires
        holdings_wf(m),
        0 <= i < m.len(),
    ensures
        pixels_of(m, m[i].artist) == m[i].pixels.to_set(),
        has_artist(m, m[i].artist),
{
    let a = m[i].artist;
    assert forall|p: Point| pixels_of(m, a).contains(p) <==> m[i].pixels.to_set().contains(p) by {
        if pixels_of(m, a).contains(p) {
            let j = choose|j: int|
                0 <= j < m.len() && (#[trigger] m[j]).artist == a && m[j].pixels.contains(p);
            if j < i {
                assert(m[j].artist != m[i].artist);
            } else if i < j {
                assert(m[i].artist != m[j].artist);
            }
        }
    }
    assert(pixels_of(m, a) =~= m[i].pixels.to_set());
}

/// The distinct artists among the first `n` events, in the order in which
/// each first appears.
pub open spec fn artists_seen(events: Seq<CanvasPixel>, n: int) -> Seq<u32>
    decreases n,
{
    if n <= 0 {
        Seq::empty()
    } else {
        let before = artists_seen(events, n - 1);
        if before.contains(events[n - 1].artist) {
            before
        } else {
            before.push(events[n - 1].artist)
        }
    }
}

/// The coordinates that `artist` paints in the first `n` events.
pub open spec fn painted_by(events: Seq<CanvasPixel>, n: int, artist: u32) -> Set<Point> {
    Set::new(
        |p: Point|
            exists|k: int|
                0 <= k < n && k < events.len() && (#[trigger] events[k]).artist == artist
                    && events[k].coord == p,
    )
}

/// The artist of the earliest among the first `n` events that uses
/// `color`: the artist who claims the colour.
pub open spec fn claimant(events: Seq<CanvasPixel>, n: int, color: Color) -> Option<u32>
    decreases n,
{
    if n <= 0 {
        None
    } else {
        match claimant(events, n - 1, color) {
            Some(a) => Some(a),
            None => if events[n - 1].color == color {
                Some(events[n - 1].artist)
            } else {
                None
            },
        }
    }
}

/// The artists of `m` in order.
pub open spec fn artist_ids(m: Seq<Holding>) -> Seq<u32> {
    Seq::new(m.len(), |i: int| m[i].artist)
}

/// An artist is among those seen in the first `n` events exactly when one of
/// these events is the artist's, and no artist is listed twice.
pub proof fn lemma_artists_seen(events: Seq<CanvasPixel>, n: int)
    requires
        0 <= n <= events.len(),
    ensures
        artists_seen(events, n).no_duplicates(),
        forall|a: u32|
            artists_seen(events, n).contains(a) <==> exists|k: int|
                0 <= k < n && (#[trigger] events[k]).artist == a,
    decreases n,
{
    if n > 0 {
        lemma_artists_seen(events, n - 1);
        let before = artists_seen(events, n - 1);
        let now = artists_seen(events, n);
        let last = events[n - 1].artist;
        assert forall|a: u32| now.contains(a) <==> exists|k: int|
            0 <= k < n && (#[trigger] events[k]).artist == a by {
            if now.contains(a) {
                let i = choose|i: int| 0 <= i < now.len() && now[i] == a;
                if i < before.len() {
                    assert(before[i] == a);
                    assert(before.contains(a));
                    let k = choose|k: int| 0 <= k < n - 1 && (#[trigger] events[k]).artist == a;
                    assert(0 <= k < n && events[k].artist == a);
                } else {
                    assert(events[n - 1].artist == a);
                }
            }
            if exists|k: int| 0 <= k < n && (#[trigger] events[k]).artist == a {
                let k = choose|k: int| 0 <= k < n && (#[trigger] events[k]).artist == a;
                if k < n - 1 {
                    assert(before.contains(a));
                    let i = choose|i: int| 0 <= i < before.len() && before[i] == a;
                    assert(now[i] == a);
                } else if before.contains(a) {
                } else {
                    assert(now[now.len() - 1] == a);
                }
            }
        }
    }
}

/// The pixels of one artist, as the index stores them.
#[derive(Debug)]
struct ArtistPixels {
    artist: u32,
    pixels: PointSet,
}

/// The occupancy index: for each artist the set of coordinates the artist
/// painted. Artists are kept in the order in which they entered the index,
/// and the position of each artist is kept in a map, so that an artist is
/// found in one step.
#[derive(Debug)]
pub struct OccupancyIndex {
    entries: Vec<ArtistPixels>,
    positions: HashMap<u32, usize>,
}

impl View for OccupancyIndex {
    type V = Seq<Holding>;

    /// The holdings, one for each artist, in the order in which the artists
    /// entered the index.
    closed spec fn view(&self) -> Seq<Holding> {
        holdings_of(self.entries@)
    }
}

/// The holdings that the stored entries stand for.
spec fn holdings_of(entries: Seq<ArtistPixels>) -> Seq<Holding> {
    Seq::new(
        entries.len(),
        |i: int| Holding { artist: entries[i].artist, pixels: entries[i].pixels.ascending() },
    )
}

/// The map holds exactly the artists of the entries, each with the
/// position of the artist's entry.
spec fn positions_match(entries: Seq<ArtistPixels>, positions: Map<u32, usize>) -> bool {
    &&& forall|a: u32| #[trigger]
        positions.contains_key(a) ==> positions[a] < entries.len() && entries[positions[a] as int].artist
            == a
    &&& forall|i: int|
        0 <= i < entries.len() ==> positions.contains_key((#[trigger] entries[i]).artist)
}

impl OccupancyIndex {
    /// What holds of every index: see [`holdings_wf`]; and the index finds
    /// each of its artists.
    #[verifier::type_invariant]
    pub open spec fn wf(&self) -> bool {
        holdings_wf(self@) && self.indexed()
    }

    /// Whether the map of positions agrees with the entries.
    pub closed spec fn indexed(&self) -> bool {
        positions_match(self.entries@, self.positions@)
    }

    /// The index without any artist.
    pub fn new() -> (index: OccupancyIndex)
        ensures
            index@ == Seq::<Holding>::empty(),
            index.wf(),
    {
        let index = OccupancyIndex { entries: Vec::new(), positions: HashMap::new() };
        assert(index@ =~= Seq::<Holding>::empty());
        index
    }

    /// Takes the parts out of the index and leaves it empty.
    fn take(&mut self) -> (parts: (Vec<ArtistPixels>, HashMap<u32, usize>))
        ensures
            parts.0 == old(self).entries,
            parts.1 == old(self).positions,
    {
        let mut taken = OccupancyIndex::new();
        std::mem::swap(self, &mut taken);
        let OccupancyIndex { entries, positions } = taken;
        (entries, positions)
    }

    /// The number of artists.
    pub fn len(&self) -> (n: usize)
        ensures
            n == self@.len(),
    {
        self.entries.len()
    }

    /// The artist at position `i`.
    pub fn artist(&self, i: usize) -> (a: u32)
        requires
            i < self@.len(),
        ensures
            a == self@[i as int].artist,
    {
        self.entries[i].artist
    }

    /// The pixels of the artist at position `i`.
    pub fn pixels(&self, i: usize) -> (s: &PointSet)
        requires
            i < self@.len(),
        ensures
            s.ascending() == self@[i as int].pixels,
            s.wf(),
    {
        proof {
            use_type_invariant(self);
        }
        &self.entries[i].pixels
    }

    /// The artists in the order in which they entered the index.
    pub fn artists(&self) -> (v: Vec<u32>)
        ensures
            v@ == artist_ids(self@),
    {
        let mut v: Vec<u32> = Vec::new();
        let mut i: usize = 0;
        while i < self.entries.len()
            invariant
                i <= self.entries@.len(),
                v@.len() == i,
                forall|j: int| 0 <= j < i ==> v@[j] == self@[j].artist,
            decreases self.entries@.len() - i,
        {
            v.push(self.entries[i].artist);
            i = i + 1;
        }
        assert(v@ =~= artist_ids(self@));
        v
    }

    /// The position of `artist`, if the index knows the artist.
    pub fn position(&self, artist: u32) -> (r: Option<usize>)
        ensures
            r is Some <==> has_artist(self@, artist),
            r matches Some(i) ==> i < self@.len() && self@[i as int].artist == artist,
    {
        broadcast use vstd::std_specs::hash::group_hash_axioms;

        proof {
            use_type_invariant(self);
        }
        match self.positions.get(&artist) {
            Some(i) => {
                assert(self@[*i as int].artist == artist);
                Some(*i)
            },
            None => {
                assert forall|j: int| 0 <= j < self@.len() implies (#[trigger] self@[j]).artist
                    != artist by {
                    assert(self.positions@.contains_key(self.entries@[j].artist));
                }
                None
            },
        }
    }

    /// The pixels of `artist`, if the index knows the artist.
    pub fn pixels_of(&self, artist: u32) -> (r: Option<&PointSet>)
        ensures
            r is Some <==> has_artist(self@, artist),
            r matches Some(s) ==> s@ == pixels_of(self@, artist) && s.wf(),
    {
        match self.position(artist) {
            Some(i) => {
                proof {
                    use_type_invariant(self);
                    lemma_pixels_of_holding(self@, i as int);
                }
                Some(&self.entries[i].pixels)
            },
            None => None,
        }
    }

    /// Makes `artist` known to the index. An artist who is new to it enters
    /// behind all others, with no pixel; for a known artist nothing changes.
    /// Returns the artist's position.
    pub fn register(&mut self, artist: u32) -> (i: usize)
        ensures
            final(self).wf(),
            has_artist(old(self)@, artist) ==> final(self)@ == old(self)@,
            !has_artist(old(self)@, artist) ==> final(self)@ == old(self)@.push(
                Holding { artist, pixels: Seq::empty() },
            ),
            i < final(self)@.len(),
            final(self)@[i as int].artist == artist,
    {
        proof {
            use_type_invariant(&*self);
        }
        match self.position(artist) {
            Some(i) => i,
            None => {
                let ghost before = self@;
                let (mut entries, mut positions) = self.take();
                let ghost held = entries@;
                let ghost known = positions@;
                let n = entries.len();
                entries.push(ArtistPixels { artist, pixels: PointSet::new() });
                positions.insert(artist, n);
                proof {
                    assert(!known.contains_key(artist)) by {
                        if known.contains_key(artist) {
                            assert(before[known[artist] as int].artist == artist);
                        }
                    }
                    assert forall|a: u32| #[trigger] positions@.contains_key(a) implies positions@[a]
                        < entries@.len() && entries@[positions@[a] as int].artist == a by {
                        if a != artist {
                            assert(known.contains_key(a));
                        }
                    }
                    assert forall|i: int| 0 <= i < entries@.len() implies positions@.contains_key(
                        (#[trigger] entries@[i]).artist,
                    ) by {
                        if i < n {
                            assert(known.contains_key(held[i].artist));
                        }
                    }
                    let after = holdings_of(entries@);
                    assert(after =~= before.push(Holding { artist, pixels: Seq::empty() }));
                    assert forall|i: int, j: int| 0 <= i < j < after.len() implies (
                    #[trigger] after[i]).artist != (#[trigger] after[j]).artist by {
                        if j < n {
                            assert(before[i].artist != before[j].artist);
                        } else {
                            assert(before[i].artist != artist);
                        }
                    }
                    assert forall|i: int| 0 <= i < after.len() implies strictly_ascending(
                        (#[trigger] after[i]).pixels,
                    ) by {
                        if i < n {
                            assert(strictly_ascending(before[i].pixels));
                        }
                    }
                }
                *self = OccupancyIndex { entries, positions };
                n
            },
        }
    }

    /// Records that `artist` painted `p`. An artist who is new to the index
    /// enters behind all others. Returns whether the coordinate is new for
    /// this artist: `false` means a repeated write, which changes nothing.
    pub fn insert(&mut self, artist: u32, p: Point) -> (fresh: bool)
        ensures
            final(self).wf(),
            fresh == !pixels_of(old(self)@, artist).contains(p),
            artist_ids(final(self)@) == (if has_artist(old(self)@, artist) {
                artist_ids(old(self)@)
            } else {
                artist_ids(old(self)@).push(artist)
            }),
            final(self)@.len() == artist_ids(final(self)@).len(),
            pixels_of(final(self)@, artist) == pixels_of(old(self)@, artist).insert(p),
            forall|a: u32|
                a != artist ==> #[trigger] pixels_of(final(self)@, a) == pixels_of(old(self)@, a),
            !fresh ==> final(self)@ == old(self)@,
    {
        let ghost before = self@;
        let i = self.register(artist);
        let ghost mid = self@;
        proof {
            use_type_invariant(&*self);
            lemma_pixels_of_holding(mid, i as int);
            if !has_artist(before, artist) {
                assert(pixels_of(before, artist) =~= Set::<Point>::empty());
                assert(mid[i as int].pixels.to_set() =~= Set::<Point>::empty());
            }
            assert(pixels_of(mid, artist) == pixels_of(before, artist));
        }
        let (mut entries, positions) = self.take();
        let ghost held = entries@;
        let fresh = entries[i].pixels.insert(p);
        proof {
            assert forall|a: u32| #[trigger] positions@.contains_key(a) implies positions@[a]
                < entries@.len() && entries@[positions@[a] as int].artist == a by {
                assert(held[positions@[a] as int].artist == a);
            }
            assert forall|j: int| 0 <= j < entries@.len() implies positions@.contains_key(
                (#[trigger] entries@[j]).artist,
            ) by {
                assert(positions@.contains_key(held[j].artist));
            }
            assert(entries@.len() == held.len());
            assert(forall|j: int| 0 <= j < held.len() && j != i ==> entries@[j] == held[j]);
            assert(entries@[i as int].artist == artist);
        }
        proof {
            let after = holdings_of(entries@);
            assert(after.len() == mid.len());
            assert forall|j: int| 0 <= j < after.len() && j != i implies #[trigger] after[j]
                == mid[j] by {}
            assert(after[i as int].artist == artist);
            assert(after[i as int].pixels.to_set() == mid[i as int].pixels.to_set().insert(p));
            assert(artist_ids(after) =~= artist_ids(mid));
            if has_artist(before, artist) {
                assert(artist_ids(mid) == artist_ids(before));
            } else {
                assert(artist_ids(mid) =~= artist_ids(before).push(artist));
            }
            assert forall|j: int, k: int| 0 <= j < k < after.len() implies (#[trigger] after[j]).artist
                != (#[trigger] after[k]).artist by {
                assert(mid[j].artist != mid[k].artist);
            }
            assert forall|j: int| 0 <= j < after.len() implies strictly_ascending(
                (#[trigger] after[j]).pixels,
            ) by {
                if j != i {
                    assert(strictly_ascending(mid[j].pixels));
                }
            }
            lemma_pixels_of_holding(after, i as int);
            assert forall|a: u32| a != artist implies #[trigger] pixels_of(after, a) == pixels_of(
                before,
                a,
            ) by {
                assert forall|q: Point| pixels_of(after, a).contains(q) <==> pixels_of(
                    mid,
                    a,
                ).contains(q) by {
                    if pixels_of(after, a).contains(q) {
                        let j = choose|j: int|
                            0 <= j < after.len() && (#[trigger] after[j]).artist == a
                                && after[j].pixels.contains(q);
                        assert(mid[j].artist == a && mid[j].pixels.contains(q));
                    }
                    if pixels_of(mid, a).contains(q) {
                        let j = choose|j: int|
                            0 <= j < mid.len() && (#[trigger] mid[j]).artist == a
                                && mid[j].pixels.contains(q);
                        assert(after[j].artist == a && after[j].pixels.contains(q));
                    }
                }
                assert(pixels_of(after, a) =~= pixels_of(mid, a));
                assert forall|q: Point| pixels_of(mid, a).contains(q) <==> pixels_of(
                    before,
                    a,
                ).contains(q) by {
                    if pixels_of(mid, a).contains(q) {
                        let j = choose|j: int|
                            0 <= j < mid.len() && (#[trigger] mid[j]).artist == a
                                && mid[j].pixels.contains(q);
                        assert(before[j].artist == a && before[j].pixels.contains(q));
                    }
                    if pixels_of(before, a).contains(q) {
                        let j = choose|j: int|
                            0 <= j < before.len() && (#[trigger] before[j]).artist == a
                                && before[j].pixels.contains(q);
                        assert(mid[j].artist == a && mid[j].pixels.contains(q));
                    }
                }
                assert(pixels_of(mid, a) =~= pixels_of(before, a));
            }
            if !fresh {
                assert(after[i as int] == mid[i as int]);
                assert(after =~= mid);
                assert(has_artist(before, artist)) by {
                    if !has_artist(before, artist) {
                        assert(!pixels_of(before, artist).contains(p));
                    }
                }
            }
        }
        *self = OccupancyIndex { entries, positions };
        fresh
    }
}

/// The colour registry: for each colour that has been used, the artist who
/// used it first.
#[derive(Debug)]
pub struct ColorRegistry {
    claims: HashMap<u32, u32>,
}

impl View for ColorRegistry {
    type V = Map<Color, u32>;

    /// The claimed colours, each with its claimant.
    closed spec fn view(&self) -> Map<Color, u32> {
        Map::new(
            |c: Color| self.claims@.contains_key(c.packed()),
            |c: Color| self.claims@[c.packed()],
        )
    }
}

impl ColorRegistry {
    /// The registry in which no colour is claimed.
    pub fn new() -> (registry: ColorRegistry)
        ensures
            registry@ == Map::<Color, u32>::empty(),
    {
        let registry = ColorRegistry { claims: HashMap::new() };
        assert(registry@ =~= Map::<Color, u32>::empty());
        registry
    }

    /// The artist who claimed `color`, if anyone did.
    pub fn claimant(&self, color: &Color) -> (r: Option<u32>)
        ensures
            r == (if self@.contains_key(*color) {
                Some(self@[*color])
            } else {
                None
            }),
    {
        broadcast use vstd::std_specs::hash::group_hash_axioms;

        match self.claims.get(&color.pack()) {
            Some(a) => Some(*a),
            None => None,
        }
    }

    /// Claims `color` for `artist` unless the colour is claimed already.
    /// Returns the earlier claimant, if there is one; the registry never
    /// changes a claim.
    pub fn claim(&mut self, color: Color, artist: u32) -> (prior: Option<u32>)
        ensures
            prior == (if old(self)@.contains_key(color) {
                Some(old(self)@[color])
            } else {
                None
            }),
            final(self)@ == (if old(self)@.contains_key(color) {
                old(self)@
            } else {
                old(self)@.insert(color, artist)
            }),
    {
        broadcast use vstd::std_specs::hash::group_hash_axioms;

        let prior = self.claimant(&color);
        if prior.is_none() {
            self.claims.insert(color.pack(), artist);
            proof {
                assert forall|c: Color| #[trigger]
                    final(self)@.contains_key(c) <==> old(self)@.insert(color, artist).contains_key(
                        c,
                    ) by {
                    if c != color {
                        if c.packed() == color.packed() {
                            Color::lemma_packed_injective(c, color);
                        }
                    }
                }
                assert forall|c: Color| #[trigger]
                    final(self)@.contains_key(c) implies final(self)@[c] == old(self)@.insert(
                    color,
                    artist,
                )[c] by {
                    if c != color {
                        if c.packed() == color.packed() {
                            Color::lemma_packed_injective(c, color);
                        }
                    }
                }
                assert(final(self)@ =~= old(self)@.insert(color, artist));
            }
        }
        prior
    }
}

} // verus!
