//! Half-open intervals over `u64`: containment, intersection, adjacency, hull.

use vstd::prelude::*;

verus! {

/// A half-open interval `[from, to)`. The interval is empty iff `from >= to`.
#[derive(Debug, PartialEq, Eq, Structural, Clone, Copy)]
pub struct Interval {
    /// The first value of the interval.
    pub from: u64,

    /// The first value past the end of the interval.
    pub to: u64,
}

impl Default for Interval {
    /// The default interval is the empty interval `[0, 0)`.
    fn default() -> (r: Interval)
        ensures
            r == (Interval { from: 0, to: 0 }),
    {
        Interval { from: 0, to: 0 }
    }
}

impl Interval {
    pub open spec fn spec_empty(self) -> bool {
        self.from >= self.to
    }

    pub open spec fn spec_size(self) -> int {
        if self.spec_empty() {
            0
        } else {
            self.to - self.from
        }
    }

    pub open spec fn spec_contains(self, p: u64) -> bool {
        !self.spec_empty() && self.from <= p < self.to
    }

    pub open spec fn spec_adjacent(self, other: Interval) -> bool {
        !self.spec_empty() && !other.spec_empty() && (self.to == other.from
            || other.to == self.from)
    }

    pub open spec fn spec_intersects(self, other: Interval) -> bool {
        !self.spec_empty() && !other.spec_empty() && !(self.to <= other.from) && !(other.to
            <= self.from)
    }

    pub open spec fn spec_intersection(self, other: Interval) -> Interval {
        if self.spec_intersects(other) {
            Interval {
                from: if self.from >= other.from {
                    self.from
                } else {
                    other.from
                },
                to: if self.to <= other.to {
                    self.to
                } else {
                    other.to
                },
            }
        } else {
            Interval { from: 0, to: 0 }
        }
    }

    pub open spec fn spec_joinable(self, other: Interval) -> bool {
        self.spec_adjacent(other) || self.spec_intersects(other)
    }

    pub open spec fn spec_hull(self, other: Interval) -> Interval {
        Interval {
            from: if self.from <= other.from {
                self.from
            } else {
                other.from
            },
            to: if self.to >= other.to {
                self.to
            } else {
                other.to
            },
        }
    }

    pub fn new_with_size(start: u64, size: u64) -> (r: Interval)
        requires
            start + size <= u64::MAX,
        ensures
            r.from == start,
            r.to == start + size,
            r.spec_size() == size,
    {
        Interval { from: start, to: start + size }
    }

    /// Checks whether an interval is empty.
    pub fn empty(&self) -> (r: bool)
        ensures
            r == self.spec_empty(),
    {
        self.from >= self.to
    }

    /// Returns the number of elements in the interval.
    pub fn size(&self) -> (r: u64)
        ensures
            r == self.spec_size(),
    {
        if self.empty() {
            0
        } else {
            self.to - self.from
        }
    }

    pub fn contains(&self, p: u64) -> (r: bool)
        ensures
            r == self.spec_contains(p),
    {
        if self.empty() {
            false
        } else {
            self.from <= p && p < self.to
        }
    }

    /// Returns true if both intervals are adjacent. Empty intervals are adjacent to nothing.
    pub fn adjacent(&self, other: Interval) -> (r: bool)
        ensures
            r == self.spec_adjacent(other),
    {
        if self.empty() || other.empty() {
            false
        } else {
            self.to == other.from || other.to == self.from
        }
    }

    pub fn intersects(&self, other: Interval) -> (r: bool)
        ensures
            r == self.spec_intersects(other),
    {
        if self.empty() || other.empty() {
            false
        } else {
            let begins_before = self.to <= other.from;
            let starts_after = other.to <= self.from;

            !(begins_before || starts_after)
        }
    }

    pub fn intersection(&self, other: Interval) -> (r: Interval)
        ensures
            r == self.spec_intersection(other),
    {
        if self.intersects(other) {
            Interval {
                from: if self.from >= other.from {
                    self.from
                } else {
                    other.from
                },
                to: if self.to <= other.to {
                    self.to
                } else {
                    other.to
                },
            }
        } else {
            Interval::default()
        }
    }

    /// Returns true if the intervals laid over one another are contiguous.
    pub fn joinable(&self, other: Interval) -> (r: bool)
        ensures
            r == self.spec_joinable(other),
    {
        self.adjacent(other) || self.intersects(other)
    }

    pub fn hull(&self, other: Interval) -> (r: Interval)
        ensures
            r == self.spec_hull(other),
    {
        Interval {
            from: if self.from <= other.from {
                self.from
            } else {
                other.from
            },
            to: if self.to >= other.to {
                self.to
            } else {
                other.to
            },
        }
    }
}

/// Two non-empty intervals intersect exactly when their intersection has a
/// positive number of elements.
pub proof fn lemma_intersects_iff_nonempty_intersection(a: Interval, b: Interval)
    requires
        !a.spec_empty(),
        !b.spec_empty(),
    ensures
        a.spec_intersects(b) <==> a.spec_intersection(b).spec_size() > 0,
{
}

} // verus!
