//! The pattern check: no two artists drew the same shape.
//!
//! Two shapes are the same when moving one of them, without turning or
//! mirroring it, lays it onto the other.
//! Each set is brought into a normal form, in which every point is given by
//! its offset from the set's anchor. The anchor is the rightmost point of
//! the set, and of several rightmost points the one with the greatest `y`:
//! the greatest point in the order of the coordinates. So a set has one
//! anchor wherever it lies, and no point of it lies to the right of the
//! anchor.

use vstd::prelude::*;
use crate::geometry::{Offset, Point};
use crate::model::{Holding, OccupancyIndex};
use crate::listing::{of_pairs, with_later};
use crate::point_set::{PointSet, lemma_ascending_unique, strictly_ascending};

verus! {

/// Why a set has no normal form.
#[derive(Clone, Copy, Debug, PartialEq, Eq, Structural)]
pub enum ShapeError {
    /// The set is empty, so it has no anchor.
    NoPixels,
}

/// Two artists who drew the same shape.
#[derive(Clone, Copy, Debug, PartialEq, Eq, Structural)]
pub struct DuplicatePattern {
    /// The artist who stands earlier in the index.
    pub first: u32,
    /// The artist who stands later in the index.
    pub second: u32,
}

/// The normal form of the points `s`, which ascend: the offset of each from
/// the last, which is the anchor.
pub open spec fn normalized(s: Seq<Point>) -> Seq<Offset> {
    Seq::new(s.len(), |i: int| s[i].offset_from(s[s.len() - 1]))
}

/// In the normal form of a set the anchor stands last, at no distance from
/// itself, and no point lies to the right of it: every `dx` is at most 0,
/// and where `dx` is 0, `dy` is at most 0.
pub proof fn lemma_normalized_anchor(s: Seq<Point>)
    requires
        strictly_ascending(s),
        s.len() > 0,
    ensures
        normalized(s).last() == (Offset { dx: 0, dy: 0 }),
        forall|i: int|
            0 <= i < s.len() ==> {
                &&& (#[trigger] normalized(s)[i]).dx <= 0
                &&& normalized(s)[i].dx == 0 ==> normalized(s)[i].dy <= 0
            },
{
    let n = s.len() as int;
    assert forall|i: int| 0 <= i < n implies {
        &&& (#[trigger] normalized(s)[i]).dx <= 0
        &&& normalized(s)[i].dx == 0 ==> normalized(s)[i].dy <= 0
    } by {
        if i < n - 1 {
            assert(s[i].precedes(s[n - 1]));
        }
    }
}

/// Whether two ascending sequences of points are the same shape: neither is
/// empty and their normal forms are equal.
pub open spec fn same_shape(a: Seq<Point>, b: Seq<Point>) -> bool {
    a.len() > 0 && b.len() > 0 && normalized(a) == normalized(b)
}

/// The finding for the artists at `i` and `j`, if they drew the same shape.
pub open spec fn duplicate_of(m: Seq<Holding>, i: int, j: int) -> Option<DuplicatePattern> {
    if same_shape(m[i].pixels, m[j].pixels) {
        Some(DuplicatePattern { first: m[i].artist, second: m[j].artist })
    } else {
        None
    }
}

/// The finding of each pair of positions of `m`, where the pair has one.
pub open spec fn duplicate_pick(m: Seq<Holding>) -> spec_fn(int, int) -> Option<DuplicatePattern> {
    |i: int, j: int| duplicate_of(m, i, j)
}

/// The findings for the artist at `i` with the artists at `i + 1` up to
/// `j - 1`, in that order.
pub open spec fn duplicates_with_later(m: Seq<Holding>, i: int, j: int) -> Seq<DuplicatePattern> {
    with_later(duplicate_pick(m), i, j)
}

/// The findings for every pair of artists whose earlier one stands before
/// `n`: each unordered pair once, ordered by the earlier artist's position
/// and then by the later one's.
pub open spec fn duplicates(m: Seq<Holding>, n: int) -> Seq<DuplicatePattern> {
    of_pairs(duplicate_pick(m), n, m.len() as int)
}

/// Whether moving every point of `a` by `dx` columns and `dy` rows gives
/// exactly the points of `b`: the moved points of `a` are on the canvas, as
/// are the points of `b` moved back, and of a point and the point that far
/// from it, the first is in `a` exactly when the second is in `b`.
pub open spec fn moved_by(a: Set<Point>, b: Set<Point>, dx: int, dy: int) -> bool {
    &&& forall|p: Point| #[trigger]
        a.contains(p) ==> -32768 <= p.x + dx <= 32767 && -32768 <= p.y + dy <= 32767
    &&& forall|q: Point| #[trigger]
        b.contains(q) ==> -32768 <= q.x - dx <= 32767 && -32768 <= q.y - dy <= 32767
    &&& forall|p: Point, q: Point|
        #![trigger a.contains(p), b.contains(q)]
        q.x == p.x + dx && q.y == p.y + dy ==> (a.contains(p) <==> b.contains(q))
}

/// Two sets with the same normal form are one set moved, by what leads
/// from the anchor of the one to the anchor of the other.
proof fn lemma_same_shape_is_moved(a: Seq<Point>, b: Seq<Point>)
    requires
        same_shape(a, b),
    ensures
        moved_by(a.to_set(), b.to_set(), b.last().x - a.last().x, b.last().y - a.last().y),
{
    let dx = b.last().x - a.last().x;
    let dy = b.last().y - a.last().y;
    assert(normalized(a).len() == normalized(b).len());
    assert forall|p: Point| #[trigger] a.to_set().contains(p) implies -32768 <= p.x + dx <= 32767
        && -32768 <= p.y + dy <= 32767 by {
        let i = choose|i: int| 0 <= i < a.len() && a[i] == p;
        assert(normalized(a)[i] == normalized(b)[i]);
    }
    assert forall|q: Point| #[trigger] b.to_set().contains(q) implies -32768 <= q.x - dx <= 32767
        && -32768 <= q.y - dy <= 32767 by {
        let i = choose|i: int| 0 <= i < b.len() && b[i] == q;
        assert(normalized(a)[i] == normalized(b)[i]);
    }
    assert forall|p: Point, q: Point|
        #![trigger a.to_set().contains(p), b.to_set().contains(q)]
        q.x == p.x + dx && q.y == p.y + dy implies (a.to_set().contains(p) <==> b.to_set().contains(
        q,
    )) by {
        if a.contains(p) {
            let i = choose|i: int| 0 <= i < a.len() && a[i] == p;
            assert(normalized(a)[i] == normalized(b)[i]);
            assert(b[i] == q);
        }
        if b.contains(q) {
            let i = choose|i: int| 0 <= i < b.len() && b[i] == q;
            assert(normalized(a)[i] == normalized(b)[i]);
            assert(a[i] == p);
        }
    }
}

/// A set moved has the normal form of the set.
proof fn lemma_moved_is_same_shape(a: Seq<Point>, b: Seq<Point>, dx: int, dy: int)
    requires
        strictly_ascending(a),
        strictly_ascending(b),
        a.len() > 0,
        b.len() > 0,
        moved_by(a.to_set(), b.to_set(), dx, dy),
    ensures
        same_shape(a, b),
{
    let sa = a.to_set();
    let sb = b.to_set();
    let c = Seq::new(a.len(), |i: int| Point { x: (a[i].x + dx) as i16, y: (a[i].y + dy) as i16 });
    assert forall|i: int| 0 <= i < a.len() implies {
        &&& (#[trigger] c[i]).x == a[i].x + dx
        &&& c[i].y == a[i].y + dy
        &&& sb.contains(c[i])
    } by {
        assert(sa.contains(a[i]));
        assert(sa.contains(a[i]) <==> sb.contains(c[i]));
    }
    assert forall|i: int, j: int| 0 <= i < j < c.len() implies (#[trigger] c[i]).precedes(
        #[trigger] c[j],
    ) by {
        assert(a[i].precedes(a[j]));
    }
    assert forall|q: Point| c.to_set().contains(q) <==> sb.contains(q) by {
        if c.contains(q) {
            let i = choose|i: int| 0 <= i < c.len() && c[i] == q;
            assert(sb.contains(c[i]));
        }
        if sb.contains(q) {
            let p = Point { x: (q.x - dx) as i16, y: (q.y - dy) as i16 };
            assert(sa.contains(p) <==> sb.contains(q));
            let i = choose|i: int| 0 <= i < a.len() && a[i] == p;
            assert(c[i] == q);
        }
    }
    assert(c.to_set() =~= sb);
    lemma_ascending_unique(c, b);
    assert(normalized(a) =~= normalized(b));
}

/// Two sets that are not empty have the same normal form exactly when one
/// is the other moved: the normal form tells shapes apart and nothing else.
pub proof fn lemma_same_shape_means_moved(a: Seq<Point>, b: Seq<Point>)
    requires
        strictly_ascending(a),
        strictly_ascending(b),
        a.len() > 0,
        b.len() > 0,
    ensures
        same_shape(a, b) <==> exists|dx: int, dy: int| moved_by(a.to_set(), b.to_set(), dx, dy),
{
    if same_shape(a, b) {
        lemma_same_shape_is_moved(a, b);
    }
    if exists|dx: int, dy: int| moved_by(a.to_set(), b.to_set(), dx, dy) {
        let (dx, dy) = choose|dx: int, dy: int| moved_by(a.to_set(), b.to_set(), dx, dy);
        lemma_moved_is_same_shape(a, b, dx, dy);
    }
}

/// Brings a set into its normal form: the offsets of its points, taken in
/// ascending order, from its rightmost point, and of several rightmost
/// points from the one with the greatest `y`. So the anchor itself comes
/// last, as the offset `(0, 0)`, and no offset points to the right.
///
/// Fails for the empty set, which has no anchor.
pub fn normalize_points(points: &PointSet) -> (r: Result<Vec<Offset>, ShapeError>)
    ensures
        r is Err <==> points@ == Set::<Point>::empty(),
        r matches Err(e) ==> e == ShapeError::NoPixels,
        r matches Ok(v) ==> {
            &&& v@ == normalized(points.ascending())
            &&& v@.len() == points@.len()
            &&& v@.last() == (Offset { dx: 0, dy: 0 })
            &&& forall|i: int| 0 <= i < v@.len() ==> (#[trigger] v@[i]).dx <= 0
        },
{
    if points.is_empty() {
        return Err(ShapeError::NoPixels);
    }
    let list = points.points();
    let anchor = list[list.len() - 1];
    let mut v: Vec<Offset> = Vec::new();
    let mut i: usize = 0;
    while i < list.len()
        invariant
            i <= list@.len(),
            list@.len() > 0,
            anchor == list@[list@.len() - 1],
            v@.len() == i,
            forall|k: int| 0 <= k < i ==> v@[k] == list@[k].offset_from(anchor),
        decreases list@.len() - i,
    {
        v.push(list[i].displacement_from(&anchor));
        i = i + 1;
    }
    proof {
        assert(v@ =~= normalized(list@));
        lemma_normalized_anchor(list@);
        points.lemma_cardinality();
    }
    Ok(v)
}

/// Whether two lists of offsets are equal.
fn same_offsets(a: &Vec<Offset>, b: &Vec<Offset>) -> (r: bool)
    ensures
        r == (a@ == b@),
{
    if a.len() != b.len() {
        return false;
    }
    let mut i: usize = 0;
    while i < a.len()
        invariant
            i <= a@.len() == b@.len(),
            forall|k: int| 0 <= k < i ==> a@[k] == b@[k],
        decreases a@.len() - i,
    {
        if a[i].dx != b[i].dx || a[i].dy != b[i].dy {
            assert(a@[i as int] != b@[i as int]);
            return false;
        }
        i = i + 1;
    }
    assert(a@ =~= b@);
    true
}

/// The normal form of each artist's set, in the order of the index; the
/// empty list for an artist without pixels.
fn normal_forms(index: &OccupancyIndex) -> (forms: Vec<Vec<Offset>>)
    ensures
        forms@.len() == index@.len(),
        forall|i: int| 0 <= i < forms@.len() ==> (#[trigger] forms@[i])@ == normalized(index@[i].pixels),
{
    let n = index.len();
    let mut forms: Vec<Vec<Offset>> = Vec::new();
    let mut i: usize = 0;
    while i < n
        invariant
            i <= n == index@.len(),
            forms@.len() == i,
            forall|k: int| 0 <= k < i ==> (#[trigger] forms@[k])@ == normalized(index@[k].pixels),
        decreases n - i,
    {
        let set = index.pixels(i);
        let form = match normalize_points(set) {
            Ok(v) => v,
            Err(_) => {
                let v: Vec<Offset> = Vec::new();
                proof {
                    if set.ascending().len() > 0 {
                        assert(set@.contains(set.ascending()[0]));
                    }
                    assert(v@ =~= normalized(index@[i as int].pixels));
                }
                v
            },
        };
        forms.push(form);
        i = i + 1;
    }
    forms
}

/// Compares the shapes of every two artists.
///
/// Returns `Ok` when no two artists drew the same shape, and otherwise one
/// finding for each unordered pair of artists whose sets are the same shape. An artist without pixels has no shape and is in no
/// finding.
pub fn check_no_repeating_patterns(index: &OccupancyIndex) -> (r: Result<(), Vec<DuplicatePattern>>)
    ensures
        r is Ok <==> duplicates(index@, index@.len() as int).len() == 0,
        r matches Err(v) ==> v@ == duplicates(index@, index@.len() as int),
{
    let n = index.len();
    let forms = normal_forms(index);
    let mut found: Vec<DuplicatePattern> = Vec::new();
    let mut i: usize = 0;
    while i < n
        invariant
            i <= n == index@.len(),
            forms@.len() == n,
            forall|k: int| 0 <= k < n ==> (#[trigger] forms@[k])@ == normalized(index@[k].pixels),
            found@ == duplicates(index@, i as int),
        decreases n - i,
    {
        let mut j: usize = i + 1;
        while j < n
            invariant
                i < j <= n == index@.len(),
                forms@.len() == n,
                forall|k: int| 0 <= k < n ==> (#[trigger] forms@[k])@ == normalized(index@[k].pixels),
                found@ == duplicates(index@, i as int) + duplicates_with_later(
                    index@,
                    i as int,
                    j as int,
                ),
            decreases n - j,
        {
            let a = &forms[i];
            let b = &forms[j];
            assert(a@ == normalized(index@[i as int].pixels));
            assert(b@ == normalized(index@[j as int].pixels));
            if a.len() > 0 && a.len() == b.len() && same_offsets(a, b) {
                found.push(DuplicatePattern { first: index.artist(i), second: index.artist(j) });
            }
            proof {
                let rows = duplicates(index@, i as int);
                let row = duplicates_with_later(index@, i as int, j as int);
                match duplicate_of(index@, i as int, j as int) {
                    Some(d) => {
                        assert((rows + row).push(d) =~= rows + row.push(d));
                    },
                    None => {},
                }
            }
            j = j + 1;
        }
        i = i + 1;
    }
    if found.len() == 0 {
        Ok(())
    } else {
        Err(found)
    }
}

} // verus!
