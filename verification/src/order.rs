//! Search direction: the same solution types serve maximizing drivers
//! (knapsack value) and minimizing drivers (tour length), so "better" is a
//! configurable comparison on the cached objective value, not a fixed one.

use vstd::prelude::*;

verus! {

/// Whether a driver looks for the highest or the lowest objective value.
#[derive(Clone, Copy, Debug, PartialEq, Eq, Structural)]
pub enum Direction {
    Maximize,
    Minimize,
}

impl Direction {
    /// Whether value `a` is strictly better than value `b` in this direction.
    pub open spec fn spec_better(self, a: int, b: int) -> bool {
        match self {
            Direction::Maximize => a > b,
            Direction::Minimize => a < b,
        }
    }

    /// Whether value `a` is at least as good as value `b`.
    pub open spec fn spec_better_eq(self, a: int, b: int) -> bool {
        !self.spec_better(b, a)
    }

    pub fn better(self, a: i64, b: i64) -> (r: bool)
        ensures
            r == self.spec_better(a as int, b as int),
    {
        match self {
            Direction::Maximize => a > b,
            Direction::Minimize => a < b,
        }
    }

    pub fn better_eq(self, a: i64, b: i64) -> (r: bool)
        ensures
            r == self.spec_better_eq(a as int, b as int),
    {
        match self {
            Direction::Maximize => a >= b,
            Direction::Minimize => a <= b,
        }
    }
}

} // verus!
