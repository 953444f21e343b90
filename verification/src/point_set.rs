//! A finite set of coordinates, kept in ascending order.
//!
//! The set is stored as a vector whose points strictly ascend in the order of
//! [`Point::precedes`]. A set has exactly one such vector, so two sets are
//! equal exactly when their vectors are, and every walk over a set meets its
//! points in the same order.

use vstd::prelude::*;
use crate::geometry::Point;

verus! {

/// Every point of `s` precedes all the points behind it.
pub open spec fn strictly_ascending(s: Seq<Point>) -> bool {
    forall|i: int, j: int| 0 <= i < j < s.len() ==> (#[trigger] s[i]).precedes(#[trigger] s[j])
}

/// An ascending sequence holds no point twice.
pub proof fn lemma_ascending_no_duplicates(s: Seq<Point>)
    requires
        strictly_ascending(s),
    ensures
        s.no_duplicates(),
{
    assert forall|i: int, j: int| 0 <= i < s.len() && 0 <= j < s.len() && i != j implies s[i]
        != s[j] by {
        if i < j {
            assert(s[i].precedes(s[j]));
        } else {
            assert(s[j].precedes(s[i]));
        }
    }
}

/// In an ascending sequence a point is found at one index only, and the
/// order of two indices is the order of their points.
pub proof fn lemma_ascending_index_order(s: Seq<Point>, i: int, j: int)
    requires
        strictly_ascending(s),
        0 <= i < s.len(),
        0 <= j < s.len(),
    ensures
        s[i].precedes(s[j]) <==> i < j,
        s[i] == s[j] <==> i == j,
{
    if i < j {
        assert(s[i].precedes(s[j]));
    } else if j < i {
        assert(s[j].precedes(s[i]));
    }
}

/// Two ascending sequences with the same points are the same sequence.
pub proof fn lemma_ascending_unique(a: Seq<Point>, b: Seq<Point>)
    requires
        strictly_ascending(a),
        strictly_ascending(b),
        a.to_set() == b.to_set(),
    ensures
        a == b,
    decreases a.len(),
{
    if a.len() == 0 {
        if b.len() > 0 {
            assert(b.to_set().contains(b[0]));
            assert(a.contains(b[0]));
        }
        assert(a =~= b);
    } else if b.len() == 0 {
        assert(a.to_set().contains(a[0]));
        assert(b.contains(a[0]));
    } else {
        let x = a.last();
        let y = b.last();
        assert(a.to_set().contains(x));
        assert(b.contains(x));
        let jx = choose|j: int| 0 <= j < b.len() && b[j] == x;
        assert(b.to_set().contains(y));
        assert(a.contains(y));
        let iy = choose|i: int| 0 <= i < a.len() && a[i] == y;
        lemma_ascending_index_order(a, iy, a.len() - 1);
        lemma_ascending_index_order(b, jx, b.len() - 1);
        assert(x == y);
        let a2 = a.drop_last();
        let b2 = b.drop_last();
        assert forall|p: Point| a2.to_set().contains(p) <==> b2.to_set().contains(p) by {
            if a2.contains(p) {
                let i = choose|i: int| 0 <= i < a2.len() && a2[i] == p;
                lemma_ascending_index_order(a, i, a.len() - 1);
                assert(a.to_set().contains(a[i]));
                assert(b.contains(p));
                let j = choose|j: int| 0 <= j < b.len() && b[j] == p;
                assert(b2[j] == p);
            }
            if b2.contains(p) {
                let j = choose|j: int| 0 <= j < b2.len() && b2[j] == p;
                lemma_ascending_index_order(b, j, b.len() - 1);
                assert(b.to_set().contains(b[j]));
                assert(a.contains(p));
                let i = choose|i: int| 0 <= i < a.len() && a[i] == p;
                assert(a2[i] == p);
            }
        }
        assert(a2.to_set() =~= b2.to_set());
        lemma_ascending_unique(a2, b2);
        assert(a =~= a2.push(x));
        assert(b =~= b2.push(y));
    }
}

/// A finite set of coordinates.
#[derive(Debug)]
pub struct PointSet {
    points: Vec<Point>,
}

impl Clone for PointSet {
    /// A set with the same points.
    fn clone(&self) -> (s: PointSet)
        ensures
            s.ascending() == self.ascending(),
            s@ == self@,
    {
        proof {
            use_type_invariant(self);
        }
        let points = self.points.clone();
        assert(points@ =~= self.points@);
        PointSet { points }
    }
}

impl View for PointSet {
    type V = Set<Point>;

    /// The points of the set.
    open spec fn view(&self) -> Set<Point> {
        self.ascending().to_set()
    }
}

impl PointSet {
    /// The points of the set in ascending order.
    pub closed spec fn ascending(&self) -> Seq<Point> {
        self.points@
    }

    /// What holds of every set: its points strictly ascend.
    #[verifier::type_invariant]
    pub open spec fn wf(&self) -> bool {
        strictly_ascending(self.ascending())
    }

    /// A well-formed set is finite and has as many points as its ascending
    /// sequence is long.
    pub proof fn lemma_cardinality(&self)
        requires
            self.wf(),
        ensures
            self@.finite(),
            self@.len() == self.ascending().len(),
    {
        lemma_ascending_no_duplicates(self.ascending());
        self.ascending().unique_seq_to_set();
        vstd::seq_lib::seq_to_set_is_finite(self.ascending());
    }

    /// Two well-formed sets with the same points list them in the same
    /// order.
    pub proof fn lemma_same_points_same_order(&self, other: &PointSet)
        requires
            self.wf(),
            other.wf(),
            self@ == other@,
        ensures
            self.ascending() == other.ascending(),
    {
        lemma_ascending_unique(self.ascending(), other.ascending());
    }

    /// The empty set.
    pub fn new() -> (s: PointSet)
        ensures
            s.wf(),
            s@ == Set::<Point>::empty(),
            s.ascending() == Seq::<Point>::empty(),
    {
        let s = PointSet { points: Vec::new() };
        assert(s@ =~= Set::<Point>::empty());
        s
    }

    /// The number of points.
    pub fn len(&self) -> (n: usize)
        ensures
            n == self.ascending().len(),
            n == self@.len(),
    {
        proof {
            use_type_invariant(self);
            self.lemma_cardinality();
        }
        self.points.len()
    }

    /// Whether the set has no point.
    pub fn is_empty(&self) -> (b: bool)
        ensures
            b == (self.ascending().len() == 0),
            b == (self@ == Set::<Point>::empty()),
    {
        proof {
            if self.ascending().len() > 0 {
                assert(self@.contains(self.ascending()[0]));
            } else {
                assert(self@ =~= Set::<Point>::empty());
            }
        }
        self.points.len() == 0
    }

    /// The points in ascending order.
    pub fn points(&self) -> (v: &Vec<Point>)
        ensures
            v@ == self.ascending(),
            strictly_ascending(v@),
    {
        proof {
            use_type_invariant(self);
        }
        &self.points
    }

    /// The number of points that precede `p`: the index at which `p` stands,
    /// or would stand if it were a member.
    fn rank(&self, p: &Point) -> (k: usize)
        ensures
            k <= self.ascending().len(),
            forall|i: int| 0 <= i < k ==> (#[trigger] self.ascending()[i]).precedes(*p),
            forall|i: int|
                k <= i < self.ascending().len() ==> !(#[trigger] self.ascending()[i]).precedes(*p),
    {
        proof {
            use_type_invariant(self);
        }
        let mut lo: usize = 0;
        let mut hi: usize = self.points.len();
        while lo < hi
            invariant
                lo <= hi <= self.points@.len(),
                strictly_ascending(self.points@),
                forall|i: int| 0 <= i < lo ==> (#[trigger] self.points@[i]).precedes(*p),
                forall|i: int|
                    hi <= i < self.points@.len() ==> !(#[trigger] self.points@[i]).precedes(*p),
            decreases hi - lo,
        {
            let mid: usize = lo + (hi - lo) / 2;
            if self.points[mid] < *p {
                assert forall|i: int| 0 <= i < mid + 1 implies (#[trigger] self.points@[i]).precedes(
                    *p,
                ) by {
                    if i < mid {
                        assert(self.points@[i].precedes(self.points@[mid as int]));
                    }
                }
                lo = mid + 1;
            } else {
                assert forall|i: int| mid <= i < self.points@.len() implies !(
                #[trigger] self.points@[i]).precedes(*p) by {
                    if mid < i {
                        assert(self.points@[mid as int].precedes(self.points@[i]));
                    }
                }
                hi = mid;
            }
        }
        lo
    }

    /// The index of `p` in the ascending order, if `p` is a member.
    pub fn index_of(&self, p: &Point) -> (r: Option<usize>)
        ensures
            r is Some <==> self@.contains(*p),
            r matches Some(i) ==> i < self.ascending().len() && self.ascending()[i as int] == *p,
    {
        proof {
            use_type_invariant(self);
        }
        let k = self.rank(p);
        if k < self.points.len() && self.points[k].x == p.x && self.points[k].y == p.y {
            assert(self@.contains(self.ascending()[k as int]));
            Some(k)
        } else {
            proof {
                if self.ascending().contains(*p) {
                    let i = choose|i: int| 0 <= i < self.ascending().len() && self.ascending()[i] == *p;
                    if i < k {
                        assert(self.ascending()[i].precedes(*p));
                    } else if i > k {
                        assert(self.ascending()[k as int].precedes(self.ascending()[i]));
                        assert(!self.ascending()[k as int].precedes(*p));
                    }
                }
            }
            None
        }
    }

    /// Whether `p` is a member.
    pub fn contains(&self, p: &Point) -> (b: bool)
        ensures
            b == self@.contains(*p),
    {
        self.index_of(p).is_some()
    }

    /// Adds `p` to the set. Returns whether `p` is new to it: `false` means
    /// that the set held `p` already and is unchanged.
    pub fn insert(&mut self, p: Point) -> (fresh: bool)
        ensures
            final(self).wf(),
            fresh == !old(self)@.contains(p),
            final(self)@ == old(self)@.insert(p),
            !fresh ==> final(self).ascending() == old(self).ascending(),
    {
        proof {
            use_type_invariant(&*self);
        }
        let k = self.rank(&p);
        if k < self.points.len() && self.points[k].x == p.x && self.points[k].y == p.y {
            proof {
                assert(self@.contains(self.ascending()[k as int]));
                assert(self@.insert(p) =~= self@);
            }
            false
        } else {
            let ghost before = self.points@;
            proof {
                if before.contains(p) {
                    let i = choose|i: int| 0 <= i < before.len() && before[i] == p;
                    if i < k {
                        assert(before[i].precedes(p));
                    } else if i > k {
                        assert(before[k as int].precedes(before[i]));
                        assert(!before[k as int].precedes(p));
                    }
                }
            }
            let mut points: Vec<Point> = Vec::new();
            std::mem::swap(&mut points, &mut self.points);
            points.insert(k, p);
            proof {
                let after = points@;
                assert(after == before.insert(k as int, p));
                assert forall|i: int, j: int| 0 <= i < j < after.len() implies (#[trigger] after[i]).precedes(
                    #[trigger] after[j],
                ) by {
                    if j < k {
                        assert(before[i].precedes(before[j]));
                    } else if j == k {
                        assert(before[i].precedes(p));
                    } else if i < k {
                        assert(!before[j - 1].precedes(p));
                        assert(before[i].precedes(p));
                    } else if i == k {
                        assert(!before[j - 1].precedes(p));
                        assert(before[j - 1] != p) by {
                            assert(before.contains(before[j - 1]));
                        }
                    } else {
                        assert(before[i - 1].precedes(before[j - 1]));
                    }
                }
                assert forall|q: Point| after.to_set().contains(q) <==> before.to_set().insert(
                    p,
                ).contains(q) by {
                    if after.contains(q) {
                        let i = choose|i: int| 0 <= i < after.len() && after[i] == q;
                        if i < k {
                            assert(before[i] == q);
                        } else if i > k {
                            assert(before[i - 1] == q);
                        }
                    }
                    if before.contains(q) {
                        let i = choose|i: int| 0 <= i < before.len() && before[i] == q;
                        if i < k {
                            assert(after[i] == q);
                        } else {
                            assert(after[i + 1] == q);
                        }
                    }
                    if q == p {
                        assert(after[k as int] == q);
                    }
                }
                assert(after.to_set() =~= before.to_set().insert(p));
            }
            self.points = points;
            true
        }
    }

    /// The set of the points of `points`.
    pub fn from_points(points: &Vec<Point>) -> (s: PointSet)
        ensures
            s.wf(),
            s@ == points@.to_set(),
    {
        let mut s = PointSet::new();
        let mut i: usize = 0;
        while i < points.len()
            invariant
                i <= points@.len(),
                s.wf(),
                s@ == points@.take(i as int).to_set(),
            decreases points@.len() - i,
        {
            let ghost before = s@;
            s.insert(points[i]);
            proof {
                let a = points@.take(i as int);
                let b = points@.take(i + 1);
                assert(b == a.push(points@[i as int]));
                assert forall|q: Point| b.to_set().contains(q) <==> a.to_set().insert(
                    points@[i as int],
                ).contains(q) by {
                    if b.contains(q) {
                        let j = choose|j: int| 0 <= j < b.len() && b[j] == q;
                        if j < i {
                            assert(a[j] == q);
                        }
                    }
                    if a.contains(q) {
                        let j = choose|j: int| 0 <= j < a.len() && a[j] == q;
                        assert(b[j] == q);
                    }
                    if q == points@[i as int] {
                        assert(b[i as int] == q);
                    }
                }
                assert(b.to_set() =~= a.to_set().insert(points@[i as int]));
            }
            i = i + 1;
        }
        assert(points@.take(points@.len() as int) =~= points@);
        s
    }
}

} // verus!
