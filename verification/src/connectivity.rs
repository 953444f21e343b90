//! The connectivity check: the pixels of each artist form one island.
//!
//! Two pixels of an artist are linked when a walk leads from one to the
//! other that stays on the artist's own pixels and moves from neighbour to
//! neighbour. An island is a set of pixels that are linked with each other
//! and with no further pixel. The pixels of other artists play no part.

use vstd::prelude::*;
use crate::geometry::{AdjacencyRule, Point, adjacent, lemma_adjacent_symmetric};
use crate::listing::of_each;
use crate::model::{Holding, OccupancyIndex};
use crate::point_set::{PointSet, lemma_ascending_index_order, strictly_ascending};
use crate::views::{lemma_views_push, views};

verus! {

/// A walk on `s`: at least one point, all of them in `s`, each a neighbour
/// of the next.
pub open spec fn is_walk(rule: AdjacencyRule, s: Set<Point>, walk: Seq<Point>) -> bool {
    &&& walk.len() > 0
    &&& forall|k: int| 0 <= k < walk.len() ==> s.contains(#[trigger] walk[k])
    &&& forall|k: int, l: int|
        0 <= k && l == k + 1 && l < walk.len() ==> adjacent(
            rule,
            #[trigger] walk[k],
            #[trigger] walk[l],
        )
}

/// Whether a walk on `s` leads from `p` to `q`.
pub open spec fn linked(rule: AdjacencyRule, s: Set<Point>, p: Point, q: Point) -> bool {
    exists|walk: Seq<Point>| #[trigger] is_walk(rule, s, walk) && walk[0] == p && walk.last() == q
}

/// The points among the first `n` of `s` that are linked with `s[i]`, in
/// the order of `s`.
pub open spec fn component(rule: AdjacencyRule, s: Seq<Point>, i: int, n: int) -> Seq<Point>
    decreases n,
{
    if n <= 0 {
        Seq::empty()
    } else if linked(rule, s.to_set(), s[i], s[n - 1]) {
        component(rule, s, i, n - 1).push(s[n - 1])
    } else {
        component(rule, s, i, n - 1)
    }
}

/// Whether `s[i]` is the first point of its island: no point before it is
/// linked with it.
pub open spec fn leads(rule: AdjacencyRule, s: Seq<Point>, i: int) -> bool {
    forall|j: int| 0 <= j < i ==> !linked(rule, s.to_set(), #[trigger] s[j], s[i])
}

/// The islands of `s` whose first point is among the first `n` points of
/// `s`. The islands are ordered by their first points, and the points of
/// each island stand in the order of `s`.
pub open spec fn islands(rule: AdjacencyRule, s: Seq<Point>, n: int) -> Seq<Seq<Point>>
    decreases n,
{
    if n <= 0 {
        Seq::empty()
    } else if leads(rule, s, n - 1) {
        islands(rule, s, n - 1).push(component(rule, s, n - 1, s.len() as int))
    } else {
        islands(rule, s, n - 1)
    }
}

/// Every point of a set is linked with itself.
pub proof fn lemma_linked_self(rule: AdjacencyRule, s: Set<Point>, p: Point)
    requires
        s.contains(p),
    ensures
        linked(rule, s, p, p),
{
    let walk = seq![p];
    assert(is_walk(rule, s, walk));
    assert(walk[0] == p && walk.last() == p);
}

/// A walk can be continued to a neighbour in the set.
pub proof fn lemma_linked_step(rule: AdjacencyRule, s: Set<Point>, p: Point, q: Point, r: Point)
    requires
        linked(rule, s, p, q),
        s.contains(r),
        adjacent(rule, q, r),
    ensures
        linked(rule, s, p, r),
{
    let walk = choose|walk: Seq<Point>| #[trigger]
        is_walk(rule, s, walk) && walk[0] == p && walk.last() == q;
    let longer = walk.push(r);
    assert forall|k: int, l: int| 0 <= k && l == k + 1 && l < longer.len() implies adjacent(
        rule,
        #[trigger] longer[k],
        #[trigger] longer[l],
    ) by {
        if l < walk.len() {
            assert(adjacent(rule, walk[k], walk[l]));
        }
    }
    assert(is_walk(rule, s, longer));
    assert(longer[0] == p && longer.last() == r);
}

/// A walk can be walked backwards.
pub proof fn lemma_linked_symmetric(rule: AdjacencyRule, s: Set<Point>, p: Point, q: Point)
    requires
        linked(rule, s, p, q),
    ensures
        linked(rule, s, q, p),
{
    let walk = choose|walk: Seq<Point>| #[trigger]
        is_walk(rule, s, walk) && walk[0] == p && walk.last() == q;
    let n = walk.len() as int;
    let back = Seq::new(walk.len(), |k: int| walk[n - 1 - k]);
    assert forall|k: int, l: int| 0 <= k && l == k + 1 && l < back.len() implies adjacent(
        rule,
        #[trigger] back[k],
        #[trigger] back[l],
    ) by {
        assert(adjacent(rule, walk[n - 1 - l], walk[n - 1 - k]));
        lemma_adjacent_symmetric(rule, walk[n - 1 - l], walk[n - 1 - k]);
    }
    assert(is_walk(rule, s, back));
    assert(back[0] == q && back.last() == p);
}

/// Two walks that meet make one walk.
pub proof fn lemma_linked_transitive(
    rule: AdjacencyRule,
    s: Set<Point>,
    p: Point,
    q: Point,
    r: Point,
)
    requires
        linked(rule, s, p, q),
        linked(rule, s, q, r),
    ensures
        linked(rule, s, p, r),
{
    let first = choose|walk: Seq<Point>| #[trigger]
        is_walk(rule, s, walk) && walk[0] == p && walk.last() == q;
    let second = choose|walk: Seq<Point>| #[trigger]
        is_walk(rule, s, walk) && walk[0] == q && walk.last() == r;
    let n = first.len() as int;
    let whole = first.drop_last() + second;
    assert forall|k: int, l: int| 0 <= k && l == k + 1 && l < whole.len() implies adjacent(
        rule,
        #[trigger] whole[k],
        #[trigger] whole[l],
    ) by {
        if l < n - 1 {
            assert(adjacent(rule, first[k], first[l]));
        } else if k < n - 1 {
            assert(adjacent(rule, first[k], first[l]));
            assert(first[l] == second[0]);
        } else {
            assert(adjacent(rule, second[k - (n - 1)], second[l - (n - 1)]));
        }
    }
    assert forall|k: int| 0 <= k < whole.len() implies s.contains(#[trigger] whole[k]) by {
        if k < n - 1 {
            assert(s.contains(first[k]));
        } else {
            assert(s.contains(second[k - (n - 1)]));
        }
    }
    assert(is_walk(rule, s, whole));
    assert(whole[0] == p) by {
        if n - 1 > 0 {
            assert(whole[0] == first[0]);
        } else {
            assert(whole[0] == second[0]);
        }
    }
    assert(whole.last() == r);
}

/// Looking at more points finds no fewer islands.
pub proof fn lemma_islands_grow(rule: AdjacencyRule, s: Seq<Point>, a: int, b: int)
    requires
        a <= b,
    ensures
        islands(rule, s, a).len() <= islands(rule, s, b).len(),
    decreases b - a,
{
    if a < b {
        lemma_islands_grow(rule, s, a, b - 1);
    }
}

/// Where every point is linked with the first one, each point is linked
/// with each.
proof fn lemma_linked_through_first(rule: AdjacencyRule, s: Seq<Point>, i: int, j: int)
    requires
        0 <= i < s.len(),
        0 <= j < s.len(),
        linked(rule, s.to_set(), s[0], s[i]),
        linked(rule, s.to_set(), s[0], s[j]),
    ensures
        linked(rule, s.to_set(), s[i], s[j]),
{
    lemma_linked_symmetric(rule, s.to_set(), s[0], s[i]);
    lemma_linked_transitive(rule, s.to_set(), s[i], s[0], s[j]);
}

/// Where no point but the first leads an island, every point is linked
/// with the first.
proof fn lemma_followers_reach_first(rule: AdjacencyRule, s: Seq<Point>, i: int)
    requires
        0 <= i < s.len(),
        forall|k: int| 1 <= k < s.len() ==> !leads(rule, s, k),
    ensures
        linked(rule, s.to_set(), s[0], s[i]),
    decreases i,
{
    let set = s.to_set();
    if i == 0 {
        assert(set.contains(s[0]));
        lemma_linked_self(rule, set, s[0]);
    } else {
        assert(!leads(rule, s, i));
        let j = choose|j: int| 0 <= j < i && linked(rule, set, #[trigger] s[j], s[i]);
        lemma_followers_reach_first(rule, s, j);
        lemma_linked_transitive(rule, set, s[0], s[j], s[i]);
    }
}

/// Where no point from the second to the one before `n` leads an island,
/// the first `n` points hold one island.
proof fn lemma_one_leader(rule: AdjacencyRule, s: Seq<Point>, n: int)
    requires
        1 <= n <= s.len(),
        forall|k: int| 1 <= k < n ==> !leads(rule, s, k),
    ensures
        islands(rule, s, n).len() == 1,
    decreases n,
{
    if n > 1 {
        lemma_one_leader(rule, s, n - 1);
        assert(!leads(rule, s, n - 1));
    } else {
        assert(leads(rule, s, 0));
        assert(islands(rule, s, 0).len() == 0);
    }
}

/// The points of a set that is not empty form one island exactly when
/// every two of them are linked.
pub proof fn lemma_one_island_means_connected(rule: AdjacencyRule, s: Seq<Point>)
    requires
        s.len() > 0,
    ensures
        islands(rule, s, s.len() as int).len() >= 1,
        islands(rule, s, s.len() as int).len() == 1 <==> forall|i: int, j: int|
            0 <= i < s.len() && 0 <= j < s.len() ==> linked(
                rule,
                s.to_set(),
                #[trigger] s[i],
                #[trigger] s[j],
            ),
{
    let n = s.len() as int;
    let set = s.to_set();
    assert(leads(rule, s, 0));
    assert(islands(rule, s, 0).len() == 0);
    assert(islands(rule, s, 1).len() == 1);
    lemma_islands_grow(rule, s, 1, n);
    if islands(rule, s, n).len() == 1 {
        assert forall|k: int| 1 <= k < n implies !leads(rule, s, k) by {
            if leads(rule, s, k) {
                lemma_islands_grow(rule, s, 1, k);
                assert(islands(rule, s, k + 1).len() == islands(rule, s, k).len() + 1);
                lemma_islands_grow(rule, s, k + 1, n);
            }
        }
        assert forall|i: int, j: int| 0 <= i < s.len() && 0 <= j < s.len() implies linked(
            rule,
            set,
            #[trigger] s[i],
            #[trigger] s[j],
        ) by {
            lemma_followers_reach_first(rule, s, i);
            lemma_followers_reach_first(rule, s, j);
            lemma_linked_through_first(rule, s, i, j);
        }
    }
    if forall|i: int, j: int|
        0 <= i < s.len() && 0 <= j < s.len() ==> linked(rule, set, #[trigger] s[i], #[trigger] s[j]) {
        assert forall|k: int| 1 <= k < n implies !leads(rule, s, k) by {
            assert(linked(rule, set, s[0], s[k]));
        }
        lemma_one_leader(rule, s, n);
    }
}

/// What the check finds wrong with one artist.
#[derive(Clone, Debug, PartialEq, Eq)]
pub enum IslandFinding {
    /// The artist has no pixel at all.
    NoPixels { artist: u32 },
    /// The artist's pixels fall into more than one island.
    Scattered { artist: u32, islands: Vec<Vec<Point>> },
}

/// What an [`IslandFinding`] says.
pub enum IslandFindingView {
    NoPixels { artist: u32 },
    Scattered { artist: u32, islands: Seq<Seq<Point>> },
}

impl View for IslandFinding {
    type V = IslandFindingView;

    /// The finding, with its islands as sequences of points.
    open spec fn view(&self) -> IslandFindingView {
        match *self {
            IslandFinding::NoPixels { artist } => IslandFindingView::NoPixels { artist },
            IslandFinding::Scattered { artist, islands } => IslandFindingView::Scattered {
                artist,
                islands: views(islands@),
            },
        }
    }
}

/// The finding for the artist at `i`, if there is one: an artist with one
/// island passes.
pub open spec fn island_finding_at(rule: AdjacencyRule, m: Seq<Holding>, i: int) -> Option<
    IslandFindingView,
> {
    let s = m[i].pixels;
    if s.len() == 0 {
        Some(IslandFindingView::NoPixels { artist: m[i].artist })
    } else if islands(rule, s, s.len() as int).len() > 1 {
        Some(
            IslandFindingView::Scattered {
                artist: m[i].artist,
                islands: islands(rule, s, s.len() as int),
            },
        )
    } else {
        None
    }
}

/// The finding of each position of `m`, where the artist there has one.
pub open spec fn island_pick(rule: AdjacencyRule, m: Seq<Holding>) -> spec_fn(int) -> Option<
    IslandFindingView,
> {
    |i: int| island_finding_at(rule, m, i)
}

/// The findings for the first `n` artists, in the order of the index.
pub open spec fn island_findings(rule: AdjacencyRule, m: Seq<Holding>, n: int) -> Seq<
    IslandFindingView,
> {
    of_each(island_pick(rule, m), n)
}

/// The number of the step that leads from `p` to `q`: 0 to 3 for the steps
/// along an axis, 4 to 7 for the diagonal ones, 8 where `q` is no
/// neighbour of `p` at all.
spec fn step_between(p: Point, q: Point) -> int {
    let dx = q.x - p.x;
    let dy = q.y - p.y;
    if dx == 1 && dy == 0 {
        0
    } else if dx == -1 && dy == 0 {
        1
    } else if dx == 0 && dy == 1 {
        2
    } else if dx == 0 && dy == -1 {
        3
    } else if dx == 1 && dy == 1 {
        4
    } else if dx == 1 && dy == -1 {
        5
    } else if dx == -1 && dy == 1 {
        6
    } else if dx == -1 && dy == -1 {
        7
    } else {
        8
    }
}

/// The number of steps that a rule allows: the first four, or all eight.
spec fn reach(rule: AdjacencyRule) -> int {
    match rule {
        AdjacencyRule::FourConnected => 4,
        AdjacencyRule::EightConnected => 8,
    }
}

/// Two points are neighbours under a rule exactly when the step between
/// them is one that the rule allows.
proof fn lemma_step_between(rule: AdjacencyRule, p: Point, q: Point)
    ensures
        adjacent(rule, p, q) <==> step_between(p, q) < reach(rule),
{
}

/// The point one step of number `d` away from `p`, if the canvas has it.
fn neighbor(p: &Point, d: usize) -> (r: Option<Point>)
    requires
        d < 8,
    ensures
        r matches Some(q) ==> step_between(*p, q) == d,
        r is None ==> forall|q: Point| step_between(*p, q) != d,
{
    let dx: i32 = if d == 0 || d == 4 || d == 5 {
        1
    } else if d == 2 || d == 3 {
        0
    } else {
        -1
    };
    let dy: i32 = if d == 2 || d == 4 || d == 6 {
        1
    } else if d == 0 || d == 1 {
        0
    } else {
        -1
    };
    let x: i32 = p.x as i32 + dx;
    let y: i32 = p.y as i32 + dy;
    if x < -32768 || x > 32767 || y < -32768 || y > 32767 {
        None
    } else {
        Some(Point { x: x as i16, y: y as i16 })
    }
}

/// The label of `x`, where it is set, is the index of a point that is
/// linked with `s[x]`, stands no later than `x`, and is its own label.
spec fn rooted(rule: AdjacencyRule, s: Seq<Point>, labels: Seq<usize>, x: int) -> bool {
    &&& labels[x] <= x
    &&& labels[labels[x] as int] == labels[x]
    &&& linked(rule, s.to_set(), s[labels[x] as int], s[x])
}

/// All the neighbours of `s[x]` in `s` carry the label of `x`.
spec fn closed_at(rule: AdjacencyRule, s: Seq<Point>, labels: Seq<usize>, x: int) -> bool {
    forall|j: int| 0 <= j < s.len() && adjacent(rule, s[x], #[trigger] s[j]) ==> labels[j] == labels[x]
}

/// The state between two floods: every point before `start` is labelled,
/// every label is the index of the first point of an island, and every
/// labelled island is complete. A label equal to the length of `s` stands
/// for "not labelled yet".
spec fn surveyed(rule: AdjacencyRule, s: Seq<Point>, labels: Seq<usize>, start: int) -> bool {
    &&& labels.len() == s.len()
    &&& 0 <= start <= s.len()
    &&& forall|x: int| 0 <= x < s.len() ==> (#[trigger] labels[x]) < start || labels[x] == s.len()
    &&& forall|x: int| 0 <= x < start ==> (#[trigger] labels[x]) < s.len()
    &&& forall|x: int|
        0 <= x < s.len() && (#[trigger] labels[x]) < s.len() ==> rooted(rule, s, labels, x)
            && closed_at(rule, s, labels, x)
}

/// Whether the point with index `x` waits on the stack.
spec fn waits(stack: Seq<usize>, x: int) -> bool {
    exists|k: int| 0 <= k < stack.len() && #[trigger] stack[k] == x
}

/// The state during the flood of the island of `s[start]`: as in
/// [`surveyed`], but a point that carries the label `start` may still have
/// neighbours without a label while it waits on the stack or is the one
/// being handled, `skip`.
spec fn flooding(
    rule: AdjacencyRule,
    s: Seq<Point>,
    labels: Seq<usize>,
    stack: Seq<usize>,
    start: int,
    skip: int,
) -> bool {
    &&& labels.len() == s.len()
    &&& 0 <= start < s.len()
    &&& labels[start] == start
    &&& forall|x: int| 0 <= x < s.len() ==> (#[trigger] labels[x]) <= start || labels[x] == s.len()
    &&& forall|x: int| 0 <= x < start ==> (#[trigger] labels[x]) < s.len()
    &&& forall|x: int|
        0 <= x < s.len() && (#[trigger] labels[x]) < s.len() ==> rooted(rule, s, labels, x)
    &&& forall|x: int|
        0 <= x < s.len() && (#[trigger] labels[x]) < start ==> closed_at(rule, s, labels, x)
    &&& forall|x: int|
        0 <= x < s.len() && (#[trigger] labels[x]) == start && x != skip && !waits(stack, x)
            ==> closed_at(rule, s, labels, x)
    &&& forall|k: int|
        0 <= k < stack.len() ==> (#[trigger] stack[k]) < s.len() && labels[stack[k] as int] == start
}

/// The number of points among the first `k` that have no label yet.
spec fn unset_count(labels: Seq<usize>, k: int) -> nat
    decreases k,
{
    if k <= 0 {
        0
    } else {
        unset_count(labels, k - 1) + if labels[k - 1] == labels.len() {
            1nat
        } else {
            0nat
        }
    }
}

/// What bounds the work left in a flood: giving a label lowers it by one
/// although the point goes on the stack, and so does taking a point off
/// the stack.
spec fn work_left(labels: Seq<usize>, stack: Seq<usize>) -> nat {
    2 * unset_count(labels, labels.len() as int) + stack.len()
}

/// Giving a label to a point without one lowers the count of such points
/// by one, where the point is among those counted.
proof fn lemma_unset_count_label(labels: Seq<usize>, j: int, v: usize, k: int)
    requires
        0 <= j < labels.len(),
        labels[j] == labels.len(),
        v < labels.len(),
        0 <= k <= labels.len(),
    ensures
        unset_count(labels.update(j, v), k) + (if j < k {
            1int
        } else {
            0int
        }) == unset_count(labels, k),
    decreases k,
{
    if k > 0 {
        lemma_unset_count_label(labels, j, v, k - 1);
    }
}

/// Giving the label `start` to a neighbour `j` of the point `i` that is
/// being handled, and putting `j` on the stack, keeps the flood's state.
proof fn lemma_claim_keeps_flooding(
    rule: AdjacencyRule,
    s: Seq<Point>,
    labels: Seq<usize>,
    stack: Seq<usize>,
    start: usize,
    i: int,
    j: usize,
)
    requires
        flooding(rule, s, labels, stack, start as int, i),
        0 <= i < s.len(),
        j < s.len(),
        labels[i] == start,
        labels[j as int] == s.len(),
        adjacent(rule, s[i], s[j as int]),
    ensures
        flooding(rule, s, labels.update(j as int, start), stack.push(j), start as int, i),
{
    let after = labels.update(j as int, start);
    let pushed = stack.push(j);
    let set = s.to_set();
    assert(j > start) by {
        if j < start {
            assert(labels[j as int] < s.len());
        }
    }
    assert forall|x: int| 0 <= x < s.len() && (#[trigger] after[x]) < s.len() implies rooted(
        rule,
        s,
        after,
        x,
    ) by {
        if x == j {
            assert(rooted(rule, s, labels, i));
            assert(set.contains(s[j as int]));
            lemma_linked_step(rule, set, s[start as int], s[i], s[j as int]);
        } else {
            assert(rooted(rule, s, labels, x));
            assert(labels[x] != j) by {
                if labels[x] == j {
                    assert(labels[labels[x] as int] == labels[x]);
                }
            }
        }
    }
    assert forall|x: int| 0 <= x < s.len() && (#[trigger] after[x]) < start implies closed_at(
        rule,
        s,
        after,
        x,
    ) by {
        assert(labels[x] < start);
        assert(closed_at(rule, s, labels, x));
        assert forall|y: int| 0 <= y < s.len() && adjacent(rule, s[x], #[trigger] s[y]) implies after[y]
            == after[x] by {
            assert(labels[y] == labels[x]);
        }
    }
    assert forall|x: int|
        0 <= x < s.len() && (#[trigger] after[x]) == start && x != i && !waits(
            pushed,
            x,
        ) implies closed_at(rule, s, after, x) by {
        assert(x != j) by {
            if x == j {
                assert(pushed[pushed.len() - 1] == j);
            }
        }
        assert(labels[x] == start);
        assert(!waits(stack, x)) by {
            if waits(stack, x) {
                let k = choose|k: int| 0 <= k < stack.len() && #[trigger] stack[k] == x;
                assert(pushed[k] == x);
            }
        }
        assert(closed_at(rule, s, labels, x));
        assert forall|y: int| 0 <= y < s.len() && adjacent(rule, s[x], #[trigger] s[y]) implies after[y]
            == after[x] by {
            assert(labels[y] == labels[x]);
        }
    }
    assert forall|k: int| 0 <= k < pushed.len() implies (#[trigger] pushed[k]) < s.len()
        && after[pushed[k] as int] == start by {
        if k < stack.len() {
            assert(stack[k] < s.len() && labels[stack[k] as int] == start);
        }
    }
    assert forall|x: int| 0 <= x < s.len() implies (#[trigger] after[x]) <= start || after[x]
        == s.len() by {
        assert(labels[x] <= start || labels[x] == s.len());
    }
    assert forall|x: int| 0 <= x < start implies (#[trigger] after[x]) < s.len() by {
        assert(labels[x] < s.len());
    }
}

/// A neighbour of the point `i` that is being handled, if it has a label,
/// has the label `start`.
proof fn lemma_labelled_neighbor(
    rule: AdjacencyRule,
    s: Seq<Point>,
    labels: Seq<usize>,
    stack: Seq<usize>,
    start: int,
    i: int,
    j: int,
)
    requires
        flooding(rule, s, labels, stack, start, i),
        0 <= i < s.len(),
        0 <= j < s.len(),
        labels[i] == start,
        labels[j] != s.len(),
        adjacent(rule, s[i], s[j]),
    ensures
        labels[j] == start,
{
    assert(labels[j] <= start || labels[j] == s.len());
    if labels[j] < start {
        assert(closed_at(rule, s, labels, j));
        lemma_adjacent_symmetric(rule, s[i], s[j]);
        assert(labels[i] == labels[j]);
    }
}

/// Handles the point `i` of the island that is being flooded: gives the
/// label `start` to each neighbour of `s[i]` that has none, and puts it on
/// the stack.
fn spread(
    rule: AdjacencyRule,
    set: &PointSet,
    labels: &mut Vec<usize>,
    stack: &mut Vec<usize>,
    i: usize,
    start: usize,
)
    requires
        set.wf(),
        flooding(rule, set.ascending(), old(labels)@, old(stack)@, start as int, i as int),
        i < set.ascending().len(),
        old(labels)@[i as int] == start,
    ensures
        flooding(rule, set.ascending(), final(labels)@, final(stack)@, start as int, -1),
        work_left(final(labels)@, final(stack)@) <= work_left(old(labels)@, old(stack)@),
{
    let points = set.points();
    let ghost s = set.ascending();
    let p = points[i];
    let steps: usize = match rule {
        AdjacencyRule::FourConnected => 4,
        AdjacencyRule::EightConnected => 8,
    };
    let mut d: usize = 0;
    while d < steps
        invariant
            d <= steps == reach(rule),
            set.wf(),
            s == set.ascending(),
            points@ == s,
            strictly_ascending(s),
            i < s.len(),
            p == s[i as int],
            labels@[i as int] == start,
            flooding(rule, s, labels@, stack@, start as int, i as int),
            work_left(labels@, stack@) <= work_left(old(labels)@, old(stack)@),
            forall|j: int|
                0 <= j < s.len() && step_between(p, #[trigger] s[j]) < d ==> labels@[j] == start,
        decreases steps - d,
    {
        let ghost before = labels@;
        let ghost waiting = stack@;
        match neighbor(&p, d) {
            Some(q) => {
                match set.index_of(&q) {
                    Some(j) => {
                        proof {
                            lemma_step_between(rule, p, q);
                        }
                        if labels[j] == labels.len() {
                            proof {
                                lemma_claim_keeps_flooding(
                                    rule,
                                    s,
                                    before,
                                    waiting,
                                    start,
                                    i as int,
                                    j,
                                );
                                lemma_unset_count_label(before, j as int, start, before.len() as int);
                            }
                            labels.set(j, start);
                            stack.push(j);
                        } else {
                            proof {
                                lemma_labelled_neighbor(
                                    rule,
                                    s,
                                    before,
                                    waiting,
                                    start as int,
                                    i as int,
                                    j as int,
                                );
                            }
                        }
                        assert forall|k: int|
                            0 <= k < s.len() && step_between(p, #[trigger] s[k]) < d + 1 implies labels@[k]
                            == start by {
                            if step_between(p, s[k]) == d {
                                assert(s[k] == q);
                                lemma_ascending_index_order(s, k, j as int);
                            } else {
                                assert(before[k] == start);
                            }
                        }
                    },
                    None => {
                        assert forall|k: int|
                            0 <= k < s.len() && step_between(p, #[trigger] s[k]) < d + 1 implies labels@[k]
                            == start by {
                            if step_between(p, s[k]) == d {
                                assert(s[k] == q);
                                assert(set@.contains(s[k]));
                            }
                        }
                    },
                }
            },
            None => {},
        }
        d = d + 1;
    }
    proof {
        assert forall|j: int| 0 <= j < s.len() && adjacent(rule, s[i as int], #[trigger] s[j]) implies labels@[j]
            == labels@[i as int] by {
            lemma_step_between(rule, p, s[j]);
        }
        assert(closed_at(rule, s, labels@, i as int));
    }
}

/// Labels the whole island of `s[start]`, which has no label yet, with
/// `start`.
fn flood(rule: AdjacencyRule, set: &PointSet, labels: &mut Vec<usize>, start: usize)
    requires
        set.wf(),
        surveyed(rule, set.ascending(), old(labels)@, start as int),
        start < set.ascending().len(),
        old(labels)@[start as int] == set.ascending().len(),
    ensures
        surveyed(rule, set.ascending(), final(labels)@, start + 1),
{
    let ghost s = set.ascending();
    let ghost before = labels@;
    labels.set(start, start);
    let mut stack: Vec<usize> = Vec::new();
    stack.push(start);
    proof {
        let after = labels@;
        assert(set@.contains(s[start as int]));
        lemma_linked_self(rule, set@, s[start as int]);
        assert forall|x: int| 0 <= x < s.len() && (#[trigger] after[x]) < s.len() implies rooted(
            rule,
            s,
            after,
            x,
        ) by {
            if x != start {
                assert(before[x] < start);
                assert(rooted(rule, s, before, x));
            }
        }
        assert forall|x: int| 0 <= x < s.len() && (#[trigger] after[x]) < start implies closed_at(
            rule,
            s,
            after,
            x,
        ) by {
            assert(before[x] < s.len());
            assert(closed_at(rule, s, before, x));
            assert forall|y: int| 0 <= y < s.len() && adjacent(rule, s[x], #[trigger] s[y]) implies after[y]
                == after[x] by {
                assert(before[y] == before[x]);
            }
        }
        assert forall|x: int|
            0 <= x < s.len() && (#[trigger] after[x]) == start && x != -1 && !waits(
                stack@,
                x,
            ) implies closed_at(rule, s, after, x) by {
            if x == start {
                assert(stack@[0] == start);
            } else {
                assert(before[x] < start || before[x] == s.len());
            }
        }
        assert forall|x: int| 0 <= x < s.len() implies (#[trigger] after[x]) <= start || after[x]
            == s.len() by {
            assert(before[x] < start || before[x] == s.len());
        }
        assert forall|x: int| 0 <= x < start implies (#[trigger] after[x]) < s.len() by {
            assert(before[x] < s.len());
        }
    }
    while stack.len() > 0
        invariant
            set.wf(),
            s == set.ascending(),
            start < s.len(),
            flooding(rule, s, labels@, stack@, start as int, -1),
        decreases work_left(labels@, stack@),
    {
        let ghost waiting = stack@;
        let i = stack.pop().unwrap();
        proof {
            assert(waiting[waiting.len() - 1] == i);
            assert forall|x: int|
                0 <= x < s.len() && (#[trigger] labels@[x]) == start && x != i && !waits(
                    stack@,
                    x,
                ) implies closed_at(rule, s, labels@, x) by {
                if waits(waiting, x) {
                    let k = choose|k: int| 0 <= k < waiting.len() && #[trigger] waiting[k] == x;
                    assert(stack@[k] == x);
                }
            }
            assert forall|k: int| 0 <= k < stack@.len() implies (#[trigger] stack@[k]) < s.len()
                && labels@[stack@[k] as int] == start by {
                assert(waiting[k] < s.len() && labels@[waiting[k] as int] == start);
            }
        }
        spread(rule, set, labels, &mut stack, i, start);
    }
    proof {
        let after = labels@;
        assert forall|x: int| 0 <= x < s.len() implies (#[trigger] after[x]) < start + 1 || after[x]
            == s.len() by {
            assert(after[x] <= start || after[x] == s.len());
        }
        assert forall|x: int| 0 <= x < start + 1 implies (#[trigger] after[x]) < s.len() by {}
        assert forall|x: int| 0 <= x < s.len() && (#[trigger] after[x]) < s.len() implies rooted(
            rule,
            s,
            after,
            x,
        ) && closed_at(rule, s, after, x) by {
            assert(after[x] <= start);
            if after[x] == start {
                assert(!waits(stack@, x));
            }
        }
    }
}

/// The labelling that the survey ends with: the label of each point is the
/// index of the first point of its island.
spec fn labels_islands(rule: AdjacencyRule, s: Seq<Point>, labels: Seq<usize>) -> bool {
    &&& labels.len() == s.len()
    &&& forall|x: int|
        0 <= x < s.len() ==> (#[trigger] labels[x]) <= x && labels[labels[x] as int] == labels[x]
    &&& forall|x: int, y: int|
        0 <= x < s.len() && 0 <= y < s.len() ==> ((#[trigger] labels[x]) == (#[trigger] labels[y])
            <==> linked(rule, s.to_set(), s[x], s[y]))
}

/// On a finished survey, all the points of a walk carry one label.
proof fn lemma_walk_keeps_label(
    rule: AdjacencyRule,
    s: Seq<Point>,
    labels: Seq<usize>,
    walk: Seq<Point>,
    k: int,
)
    requires
        strictly_ascending(s),
        surveyed(rule, s, labels, s.len() as int),
        is_walk(rule, s.to_set(), walk),
        0 <= k < walk.len(),
    ensures
        s.contains(walk[k]),
        s.contains(walk[0]),
        labels[s.index_of(walk[k])] == labels[s.index_of(walk[0])],
    decreases k,
{
    assert(s.to_set().contains(walk[0]));
    assert(s.to_set().contains(walk[k]));
    if k > 0 {
        lemma_walk_keeps_label(rule, s, labels, walk, k - 1);
        let x = s.index_of(walk[k - 1]);
        let y = s.index_of(walk[k]);
        assert(adjacent(rule, walk[k - 1], walk[k]));
        assert(labels[x] < s.len());
        assert(closed_at(rule, s, labels, x));
        assert(adjacent(rule, s[x], s[y]));
    }
}

/// When the survey is finished, two points carry one label exactly when
/// they are linked.
proof fn lemma_survey_labels_islands(rule: AdjacencyRule, s: Seq<Point>, labels: Seq<usize>)
    requires
        strictly_ascending(s),
        surveyed(rule, s, labels, s.len() as int),
    ensures
        labels_islands(rule, s, labels),
{
    let set = s.to_set();
    assert forall|x: int| 0 <= x < s.len() implies (#[trigger] labels[x]) <= x
        && labels[labels[x] as int] == labels[x] by {
        assert(rooted(rule, s, labels, x));
    }
    assert forall|x: int, y: int| 0 <= x < s.len() && 0 <= y < s.len() implies ((
    #[trigger] labels[x]) == (#[trigger] labels[y]) <==> linked(rule, set, s[x], s[y])) by {
        assert(rooted(rule, s, labels, x));
        assert(rooted(rule, s, labels, y));
        if labels[x] == labels[y] {
            let r = labels[x] as int;
            lemma_linked_symmetric(rule, set, s[r], s[x]);
            lemma_linked_transitive(rule, set, s[x], s[r], s[y]);
        }
        if linked(rule, set, s[x], s[y]) {
            let walk = choose|walk: Seq<Point>| #[trigger]
                is_walk(rule, set, walk) && walk[0] == s[x] && walk.last() == s[y];
            lemma_walk_keeps_label(rule, s, labels, walk, walk.len() - 1);
            lemma_ascending_index_order(s, s.index_of(walk[0]), x);
            lemma_ascending_index_order(s, s.index_of(walk.last()), y);
        }
    }
}

/// Gives each point of the set the index of the first point of its island.
fn label_islands(rule: AdjacencyRule, set: &PointSet) -> (labels: Vec<usize>)
    requires
        set.wf(),
    ensures
        labels_islands(rule, set.ascending(), labels@),
{
    let n = set.len();
    let ghost s = set.ascending();
    let mut labels: Vec<usize> = Vec::new();
    let mut k: usize = 0;
    while k < n
        invariant
            k <= n,
            labels@.len() == k,
            forall|x: int| 0 <= x < k ==> labels@[x] == n,
        decreases n - k,
    {
        labels.push(n);
        k = k + 1;
    }
    let mut start: usize = 0;
    while start < n
        invariant
            set.wf(),
            s == set.ascending(),
            n == s.len(),
            surveyed(rule, s, labels@, start as int),
        decreases n - start,
    {
        if labels[start] == n {
            flood(rule, set, &mut labels, start);
        } else {
            proof {
                assert forall|x: int| 0 <= x < s.len() implies (#[trigger] labels@[x]) < start + 1
                    || labels@[x] == s.len() by {
                    assert(labels@[x] < start || labels@[x] == s.len());
                }
            }
        }
        start = start + 1;
    }
    proof {
        lemma_survey_labels_islands(rule, s, labels@);
    }
    labels
}

/// The points among the first `n` of `s` whose label is `r`.
spec fn labelled_with(s: Seq<Point>, labels: Seq<usize>, r: int, n: int) -> Seq<Point>
    decreases n,
{
    if n <= 0 {
        Seq::empty()
    } else if labels[n - 1] == r {
        labelled_with(s, labels, r, n - 1).push(s[n - 1])
    } else {
        labelled_with(s, labels, r, n - 1)
    }
}

/// The points that carry the label of a leading point are the points of
/// its island.
proof fn lemma_labelled_is_component(
    rule: AdjacencyRule,
    s: Seq<Point>,
    labels: Seq<usize>,
    r: int,
    n: int,
)
    requires
        labels_islands(rule, s, labels),
        0 <= r < s.len(),
        labels[r] == r,
        0 <= n <= s.len(),
    ensures
        labelled_with(s, labels, r, n) == component(rule, s, r, n),
    decreases n,
{
    if n > 0 {
        lemma_labelled_is_component(rule, s, labels, r, n - 1);
        assert(labels[r] == labels[n - 1] <==> linked(rule, s.to_set(), s[r], s[n - 1]));
    }
}

/// A point leads its island exactly when its label is its own index.
proof fn lemma_leader_is_own_label(rule: AdjacencyRule, s: Seq<Point>, labels: Seq<usize>, r: int)
    requires
        labels_islands(rule, s, labels),
        0 <= r < s.len(),
    ensures
        leads(rule, s, r) <==> labels[r] == r,
{
    let set = s.to_set();
    if labels[r] == r {
        assert forall|j: int| 0 <= j < r implies !linked(rule, set, #[trigger] s[j], s[r]) by {
            assert(labels[j] <= j);
            assert(labels[j] == labels[r] <==> linked(rule, set, s[j], s[r]));
        }
    } else {
        let l = labels[r] as int;
        assert(labels[r] <= r && labels[l] == labels[r]);
        assert(labels[l] == labels[r] <==> linked(rule, set, s[l], s[r]));
        assert(linked(rule, set, s[l], s[r]));
    }
}

/// The islands of a set: sets of points that are linked with each other and
/// with no further point of the set. Each island lists its points in
/// ascending order, and the islands are ordered by their first points.
pub fn find_islands(rule: AdjacencyRule, set: &PointSet) -> (found: Vec<Vec<Point>>)
    ensures
        views(found@) == islands(rule, set.ascending(), set.ascending().len() as int),
{
    proof {
        use_type_invariant(set);
    }
    let labels = label_islands(rule, set);
    let points = set.points();
    let n = points.len();
    let ghost s = set.ascending();
    let mut found: Vec<Vec<Point>> = Vec::new();
    let mut r: usize = 0;
    while r < n
        invariant
            r <= n == s.len(),
            points@ == s,
            strictly_ascending(s),
            labels_islands(rule, s, labels@),
            views(found@) == islands(rule, s, r as int),
        decreases n - r,
    {
        proof {
            lemma_leader_is_own_label(rule, s, labels@, r as int);
        }
        if labels[r] == r {
            let mut island: Vec<Point> = Vec::new();
            let mut k: usize = 0;
            while k < n
                invariant
                    k <= n == s.len(),
                    r < n,
                    points@ == s,
                    labels@.len() == n,
                    island@ == labelled_with(s, labels@, r as int, k as int),
                decreases n - k,
            {
                if labels[k] == r {
                    island.push(points[k]);
                }
                k = k + 1;
            }
            proof {
                lemma_labelled_is_component(rule, s, labels@, r as int, n as int);
                lemma_views_push(found@, island);
            }
            found.push(island);
        }
        r = r + 1;
    }
    found
}

/// Looks at the pixels of each artist by themselves and finds their
/// islands.
///
/// Returns `Ok` when the pixels of every artist form exactly one island.
/// Otherwise returns, in the order of the index, a finding for each artist
/// who has no pixel and for each artist whose pixels form several islands,
/// the latter with the points of every island.
pub fn check_no_islands(index: &OccupancyIndex, rule: AdjacencyRule) -> (r: Result<
    (),
    Vec<IslandFinding>,
>)
    ensures
        r is Ok <==> island_findings(rule, index@, index@.len() as int).len() == 0,
        r matches Err(v) ==> views(v@) == island_findings(rule, index@, index@.len() as int),
{
    let n = index.len();
    let mut found: Vec<IslandFinding> = Vec::new();
    let mut i: usize = 0;
    while i < n
        invariant
            i <= n == index@.len(),
            views(found@) == island_findings(rule, index@, i as int),
        decreases n - i,
    {
        let set = index.pixels(i);
        if set.is_empty() {
            let finding = IslandFinding::NoPixels { artist: index.artist(i) };
            proof {
                lemma_views_push(found@, finding);
            }
            found.push(finding);
        } else {
            let islands = find_islands(rule, set);
            if islands.len() > 1 {
                let finding = IslandFinding::Scattered { artist: index.artist(i), islands };
                proof {
                    lemma_views_push(found@, finding);
                }
                found.push(finding);
            }
        }
        i = i + 1;
    }
    if found.len() == 0 {
        Ok(())
    } else {
        Err(found)
    }
}

} // verus!
