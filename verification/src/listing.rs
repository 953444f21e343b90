//! Lists of findings: what a walk over the positions of a sequence lists,
//! or a walk over every unordered pair of positions, where some have a
//! finding and others have none.

use vstd::prelude::*;

verus! {

/// The findings for the positions before `n`, in their order. `pick` gives
/// the finding of a position, if the position has one.
pub open spec fn of_each<T>(pick: spec_fn(int) -> Option<T>, n: int) -> Seq<T>
    decreases n,
{
    if n <= 0 {
        Seq::empty()
    } else {
        match pick(n - 1) {
            Some(f) => of_each(pick, n - 1).push(f),
            None => of_each(pick, n - 1),
        }
    }
}

/// A finding that is listed is the finding of a position. Returns the
/// position.
pub proof fn lemma_position_of_listed<T>(pick: spec_fn(int) -> Option<T>, n: int, f: T) -> (i: int)
    requires
        of_each(pick, n).contains(f),
    ensures
        0 <= i < n,
        pick(i) == Some(f),
    decreases n,
{
    let now = of_each(pick, n);
    let before = of_each(pick, n - 1);
    let x = choose|x: int| 0 <= x < now.len() && now[x] == f;
    if x < before.len() {
        assert(before[x] == f);
        lemma_position_of_listed(pick, n - 1, f)
    } else {
        n - 1
    }
}

/// The finding of a position is listed.
pub proof fn lemma_position_is_listed<T>(pick: spec_fn(int) -> Option<T>, n: int, i: int)
    requires
        0 <= i < n,
        pick(i) is Some,
    ensures
        of_each(pick, n).contains(pick(i)->0),
    decreases n,
{
    let now = of_each(pick, n);
    let f = pick(i)->0;
    if i < n - 1 {
        lemma_position_is_listed(pick, n - 1, i);
        let before = of_each(pick, n - 1);
        let x = choose|x: int| 0 <= x < before.len() && before[x] == f;
        assert(now[x] == f);
    } else {
        assert(now[now.len() - 1] == f);
    }
}

/// The findings for position `i` paired with the positions from `i + 1` up
/// to `j - 1`, in that order. `pick` gives the finding of a pair, if the
/// pair has one.
pub open spec fn with_later<T>(pick: spec_fn(int, int) -> Option<T>, i: int, j: int) -> Seq<T>
    decreases j - i,
{
    if j <= i + 1 {
        Seq::empty()
    } else {
        match pick(i, j - 1) {
            Some(f) => with_later(pick, i, j - 1).push(f),
            None => with_later(pick, i, j - 1),
        }
    }
}

/// The findings for every pair of positions below `len` whose earlier one
/// stands before `n`: each unordered pair once, ordered by the earlier
/// position and then by the later one.
pub open spec fn of_pairs<T>(pick: spec_fn(int, int) -> Option<T>, n: int, len: int) -> Seq<T>
    decreases n,
{
    if n <= 0 {
        Seq::empty()
    } else {
        of_pairs(pick, n - 1, len) + with_later(pick, n - 1, len)
    }
}

/// A finding that is listed for `i` with the later positions before `j` is
/// the finding of one of these pairs. Returns the later position.
pub proof fn lemma_later_of_listed<T>(
    pick: spec_fn(int, int) -> Option<T>,
    i: int,
    j: int,
    f: T,
) -> (k: int)
    requires
        with_later(pick, i, j).contains(f),
    ensures
        i < k < j,
        pick(i, k) == Some(f),
    decreases j - i,
{
    let now = with_later(pick, i, j);
    let before = with_later(pick, i, j - 1);
    let x = choose|x: int| 0 <= x < now.len() && now[x] == f;
    if x < before.len() {
        assert(before[x] == f);
        lemma_later_of_listed(pick, i, j - 1, f)
    } else {
        j - 1
    }
}

/// The finding of a pair is listed for its earlier position.
pub proof fn lemma_later_is_listed<T>(pick: spec_fn(int, int) -> Option<T>, i: int, j: int, k: int)
    requires
        i < k < j,
        pick(i, k) is Some,
    ensures
        with_later(pick, i, j).contains(pick(i, k)->0),
    decreases j - i,
{
    let now = with_later(pick, i, j);
    let f = pick(i, k)->0;
    if k < j - 1 {
        lemma_later_is_listed(pick, i, j - 1, k);
        let before = with_later(pick, i, j - 1);
        let x = choose|x: int| 0 <= x < before.len() && before[x] == f;
        assert(now[x] == f);
    } else {
        assert(now[now.len() - 1] == f);
    }
}

/// A finding that is listed is the finding of a pair. Returns the pair.
pub proof fn lemma_pair_of_listed<T>(
    pick: spec_fn(int, int) -> Option<T>,
    n: int,
    len: int,
    f: T,
) -> (pair: (int, int))
    requires
        of_pairs(pick, n, len).contains(f),
    ensures
        0 <= pair.0 < n,
        pair.0 < pair.1 < len,
        pick(pair.0, pair.1) == Some(f),
    decreases n,
{
    let now = of_pairs(pick, n, len);
    let before = of_pairs(pick, n - 1, len);
    let row = with_later(pick, n - 1, len);
    let x = choose|x: int| 0 <= x < now.len() && now[x] == f;
    if x < before.len() {
        assert(before[x] == f);
        lemma_pair_of_listed(pick, n - 1, len, f)
    } else {
        assert(row[x - before.len()] == f);
        let k = lemma_later_of_listed(pick, n - 1, len, f);
        (n - 1, k)
    }
}

/// The finding of a pair is listed.
pub proof fn lemma_pair_is_listed<T>(
    pick: spec_fn(int, int) -> Option<T>,
    n: int,
    len: int,
    i: int,
    k: int,
)
    requires
        0 <= i < n,
        i < k < len,
        pick(i, k) is Some,
    ensures
        of_pairs(pick, n, len).contains(pick(i, k)->0),
    decreases n,
{
    let now = of_pairs(pick, n, len);
    let before = of_pairs(pick, n - 1, len);
    let row = with_later(pick, n - 1, len);
    let f = pick(i, k)->0;
    if i < n - 1 {
        lemma_pair_is_listed(pick, n - 1, len, i, k);
        let x = choose|x: int| 0 <= x < before.len() && before[x] == f;
        assert(now[x] == f);
    } else {
        lemma_later_is_listed(pick, i, len, k);
        let x = choose|x: int| 0 <= x < row.len() && row[x] == f;
        assert(now[before.len() + x] == f);
    }
}

} // verus!
