//! The overlap check: no coordinate is painted by two artists.

use vstd::prelude::*;
use crate::geometry::Point;
use crate::model::{Holding, OccupancyIndex};
use crate::listing::{of_pairs, with_later};
use crate::point_set::PointSet;
use crate::views::{lemma_views_push, views};

verus! {

/// Two artists who painted some of the same coordinates.
#[derive(Clone, Debug, PartialEq, Eq)]
pub struct Overlap {
    /// The artist who stands earlier in the index.
    pub first: u32,
    /// The artist who stands later in the index.
    pub second: u32,
    /// The coordinates that both painted, in ascending order.
    pub shared: Vec<Point>,
}

/// What an [`Overlap`] says.
pub struct OverlapView {
    pub first: u32,
    pub second: u32,
    pub shared: Seq<Point>,
}

impl View for Overlap {
    type V = OverlapView;

    /// The overlap, with its coordinates as a sequence.
    open spec fn view(&self) -> OverlapView {
        OverlapView { first: self.first, second: self.second, shared: self.shared@ }
    }
}

/// The points among the first `n` of `a` that are points of `b`, in the
/// order of `a`.
pub open spec fn common(a: Seq<Point>, b: Seq<Point>, n: int) -> Seq<Point>
    decreases n,
{
    if n <= 0 {
        Seq::empty()
    } else if b.contains(a[n - 1]) {
        common(a, b, n - 1).push(a[n - 1])
    } else {
        common(a, b, n - 1)
    }
}

/// The points of `a` that are points of `b`, in the order of `a`.
pub open spec fn shared_points(a: Seq<Point>, b: Seq<Point>) -> Seq<Point> {
    common(a, b, a.len() as int)
}

/// The overlap of the artists at `i` and `j`, if they share a coordinate.
pub open spec fn overlap_of(m: Seq<Holding>, i: int, j: int) -> Option<OverlapView> {
    let shared = shared_points(m[i].pixels, m[j].pixels);
    if shared.len() > 0 {
        Some(OverlapView { first: m[i].artist, second: m[j].artist, shared })
    } else {
        None
    }
}

/// The overlap of each pair of positions of `m`, where the pair has one.
pub open spec fn overlap_pick(m: Seq<Holding>) -> spec_fn(int, int) -> Option<OverlapView> {
    |i: int, j: int| overlap_of(m, i, j)
}

/// The overlaps of the artist at `i` with the artists at `i + 1` up to
/// `j - 1`, in that order.
pub open spec fn overlaps_with_later(m: Seq<Holding>, i: int, j: int) -> Seq<OverlapView> {
    with_later(overlap_pick(m), i, j)
}

/// The overlaps of every pair of artists whose earlier one stands before
/// `n`: each unordered pair once, ordered by the earlier artist's position
/// and then by the later one's.
pub open spec fn overlaps(m: Seq<Holding>, n: int) -> Seq<OverlapView> {
    of_pairs(overlap_pick(m), n, m.len() as int)
}

/// A point is among the first `n` points of `a` that are shared with `b`
/// exactly when it is one of these `n` points and a point of `b`.
pub proof fn lemma_common_members(a: Seq<Point>, b: Seq<Point>, n: int, p: Point)
    requires
        0 <= n <= a.len(),
    ensures
        common(a, b, n).contains(p) <==> b.contains(p) && exists|k: int|
            0 <= k < n && #[trigger] a[k] == p,
    decreases n,
{
    if n > 0 {
        lemma_common_members(a, b, n - 1, p);
        let before = common(a, b, n - 1);
        let now = common(a, b, n);
        if now.contains(p) {
            let i = choose|i: int| 0 <= i < now.len() && now[i] == p;
            if i < before.len() {
                assert(before[i] == p);
                assert(before.contains(p));
                let k = choose|k: int| 0 <= k < n - 1 && #[trigger] a[k] == p;
                assert(0 <= k < n && a[k] == p);
            } else {
                assert(a[n - 1] == p);
            }
        }
        if b.contains(p) && exists|k: int| 0 <= k < n && #[trigger] a[k] == p {
            let k = choose|k: int| 0 <= k < n && #[trigger] a[k] == p;
            if k < n - 1 {
                assert(before.contains(p));
                let i = choose|i: int| 0 <= i < before.len() && before[i] == p;
                assert(now[i] == p);
            } else {
                assert(now[now.len() - 1] == p);
            }
        }
    }
}

/// The shared points of two sequences are the intersection of their sets.
pub proof fn lemma_shared_is_intersection(a: Seq<Point>, b: Seq<Point>)
    ensures
        shared_points(a, b).to_set() == a.to_set().intersect(b.to_set()),
{
    assert forall|p: Point|
        shared_points(a, b).to_set().contains(p) <==> a.to_set().intersect(b.to_set()).contains(
            p,
        ) by {
        lemma_common_members(a, b, a.len() as int, p);
        if a.contains(p) {
            let k = choose|k: int| 0 <= k < a.len() && a[k] == p;
            assert(0 <= k < a.len() && a[k] == p);
        }
    }
    assert(shared_points(a, b).to_set() =~= a.to_set().intersect(b.to_set()));
}

/// An artist has no overlap with the later artists before `j` exactly when
/// the artist's set is disjoint from each of theirs.
pub proof fn lemma_no_overlap_with_later(m: Seq<Holding>, i: int, j: int)
    requires
        0 <= i < m.len(),
        j <= m.len(),
    ensures
        overlaps_with_later(m, i, j).len() == 0 <==> forall|k: int|
            i < k < j ==> m[i].pixels.to_set().disjoint(#[trigger] m[k].pixels.to_set()),
    decreases j,
{
    if j > i + 1 {
        lemma_no_overlap_with_later(m, i, j - 1);
        let a = m[i].pixels;
        let b = m[j - 1].pixels;
        lemma_shared_is_intersection(a, b);
        if shared_points(a, b).len() > 0 {
            let p = shared_points(a, b)[0];
            assert(shared_points(a, b).to_set().contains(p));
            assert(a.to_set().contains(p) && b.to_set().contains(p));
            assert(!a.to_set().disjoint(m[j - 1].pixels.to_set()));
        } else {
            assert forall|p: Point| !(a.to_set().contains(p) && b.to_set().contains(p)) by {
                if a.to_set().contains(p) && b.to_set().contains(p) {
                    assert(a.to_set().intersect(b.to_set()).contains(p));
                    assert(shared_points(a, b).contains(p));
                }
            }
            assert(a.to_set().disjoint(b.to_set()));
        }
    }
}

/// There is no overlap among the pairs whose earlier artist stands before
/// `n` exactly when the sets of each such pair are disjoint.
pub proof fn lemma_no_overlap_means_disjoint(m: Seq<Holding>, n: int)
    requires
        0 <= n <= m.len(),
    ensures
        overlaps(m, n).len() == 0 <==> forall|i: int, k: int|
            0 <= i < n && i < k < m.len() ==> (#[trigger] m[i]).pixels.to_set().disjoint(
                (#[trigger] m[k]).pixels.to_set(),
            ),
    decreases n,
{
    if n > 0 {
        lemma_no_overlap_means_disjoint(m, n - 1);
        lemma_no_overlap_with_later(m, n - 1, m.len() as int);
    }
}

/// The coordinates of `a` that `b` holds too, in ascending order.
fn shared_between(a: &PointSet, b: &PointSet) -> (v: Vec<Point>)
    ensures
        v@ == shared_points(a.ascending(), b.ascending()),
{
    let points = a.points();
    let mut v: Vec<Point> = Vec::new();
    let mut k: usize = 0;
    while k < points.len()
        invariant
            k <= points@.len(),
            points@ == a.ascending(),
            v@ == common(a.ascending(), b.ascending(), k as int),
        decreases points@.len() - k,
    {
        if b.contains(&points[k]) {
            v.push(points[k]);
        }
        k = k + 1;
    }
    v
}

/// Compares the pixels of every two artists.
///
/// Returns `Ok` when no coordinate belongs to two artists, and otherwise one
/// overlap for each unordered pair of artists that share coordinates, with
/// all the coordinates they share.
pub fn check_no_overlapping(index: &OccupancyIndex) -> (r: Result<(), Vec<Overlap>>)
    ensures
        r is Ok <==> overlaps(index@, index@.len() as int).len() == 0,
        r matches Err(v) ==> views(v@) == overlaps(index@, index@.len() as int),
{
    let n = index.len();
    let mut found: Vec<Overlap> = Vec::new();
    let mut i: usize = 0;
    while i < n
        invariant
            i <= n == index@.len(),
            views(found@) == overlaps(index@, i as int),
        decreases n - i,
    {
        let mut j: usize = i + 1;
        while j < n
            invariant
                i < j <= n == index@.len(),
                views(found@) == overlaps(index@, i as int) + overlaps_with_later(
                    index@,
                    i as int,
                    j as int,
                ),
            decreases n - j,
        {
            let shared = shared_between(index.pixels(i), index.pixels(j));
            if shared.len() > 0 {
                let overlap = Overlap { first: index.artist(i), second: index.artist(j), shared };
                proof {
                    lemma_views_push(found@, overlap);
                    assert(overlap@ == overlap_of(index@, i as int, j as int)->0);
                }
                found.push(overlap);
            }
            proof {
                let rows = overlaps(index@, i as int);
                let row = overlaps_with_later(index@, i as int, j as int);
                match overlap_of(index@, i as int, j as int) {
                    Some(o) => {
                        assert((rows + row).push(o) =~= rows + row.push(o));
                    },
                    None => {},
                }
            }
            j = j + 1;
        }
        i = i + 1;
    }
    if found.len() == 0 {
        Ok(())
    } else {
        Err(found)
    }
}

} // verus!
