//! The real branches of the Lambert W function: which there are, how they
//! are numbered, and how long each may be refined.

use vstd::prelude::*;

verus! {

/// A real branch of the Lambert W function.
#[derive(Debug, Clone, Copy, PartialEq, Eq, Structural)]
pub enum Branch {
    /// The principal branch, of index zero, real from `-1/e` on.
    Principal,
    /// The branch of index minus one, real strictly between `-1/e` and
    /// zero.
    LowerReal,
}

/// The most refinement steps taken on the principal branch.
pub const PRINCIPAL_ITERATIONS: usize = 50;

/// The most refinement steps taken on the lower real branch.
pub const LOWER_REAL_ITERATIONS: usize = 20;

impl Branch {
    /// The branch of index `k`, if it is one of the two real ones.
    pub open spec fn of_index(k: int) -> Option<Branch> {
        if k == 0 {
            Some(Branch::Principal)
        } else if k == -1 {
            Some(Branch::LowerReal)
        } else {
            None
        }
    }

    /// The index of this branch.
    pub open spec fn spec_index(self) -> int {
        match self {
            Branch::Principal => 0,
            Branch::LowerReal => -1,
        }
    }

    /// The branch of index `k`; `None` for every index but zero and minus
    /// one, whose branches are not real.
    pub fn from_index(k: i32) -> (r: Option<Branch>)
        ensures
            r == Branch::of_index(k as int),
    {
        if k == 0 {
            Some(Branch::Principal)
        } else if k == -1 {
            Some(Branch::LowerReal)
        } else {
            None
        }
    }

    /// The index of this branch.
    pub fn index(self) -> (k: i32)
        ensures
            k == self.spec_index(),
            Branch::of_index(k as int) == Some(self),
    {
        match self {
            Branch::Principal => 0,
            Branch::LowerReal => -1,
        }
    }

    /// The most refinement steps taken on this branch.
    pub fn max_iterations(self) -> (steps: usize)
        ensures
            steps == match self {
                Branch::Principal => PRINCIPAL_ITERATIONS,
                Branch::LowerReal => LOWER_REAL_ITERATIONS,
            },
    {
        match self {
            Branch::Principal => PRINCIPAL_ITERATIONS,
            Branch::LowerReal => LOWER_REAL_ITERATIONS,
        }
    }
}

} // verus!
