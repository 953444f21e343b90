//! The order of the coordinates as `<`, `<=`, `>` and `>=`: by `x` first,
//! and by `y` where the `x` are equal. So no two different points are equal
//! in the order, and every set of points has one least point.

use vstd::prelude::*;
use vstd::std_specs::cmp::PartialOrdSpecImpl;
use core::cmp::Ordering;
use crate::geometry::Point;

verus! {

/// How `p` stands to `q` in the order of the coordinates.
pub open spec fn point_order(p: Point, q: Point) -> Ordering {
    if p.precedes(q) {
        Ordering::Less
    } else if p == q {
        Ordering::Equal
    } else {
        Ordering::Greater
    }
}

impl PartialOrd for Point {
    /// Compares two points; the answer is never `None`.
    fn partial_cmp(&self, other: &Point) -> (r: Option<Ordering>) {
        if self.x < other.x || (self.x == other.x && self.y < other.y) {
            Some(Ordering::Less)
        } else if self.x == other.x && self.y == other.y {
            Some(Ordering::Equal)
        } else {
            Some(Ordering::Greater)
        }
    }
}

impl PartialOrdSpecImpl for Point {
    /// The comparison operators on points do what `partial_cmp_spec` says.
    open spec fn obeys_partial_cmp_spec() -> bool {
        true
    }

    /// What comparing two points gives: see [`point_order`].
    open spec fn partial_cmp_spec(&self, other: &Point) -> Option<Ordering> {
        Some(point_order(*self, *other))
    }
}

} // verus!
