//! How many states a sampling run keeps, and from where in the run.

use vstd::prelude::*;

verus! {

/// How many states to take, and from where in the run.
///
/// There is deliberately no default burn-in: how long a chain takes to forget where it started is
/// a property of the model and the temperature, not of this library.
#[derive(Clone, Copy, Debug, PartialEq, Eq)]
pub struct Plan {
    /// Sweeps run and discarded before the first draw.
    pub burn_in: usize,
    /// How many states to keep.
    pub draws: usize,
    /// Sweeps between kept states. Coerced up to 1: a `thin` of zero would return the same state
    /// `draws` times.
    pub thin: usize,
}

/// Total sweeps a plan runs, burn-in included, with its thinning read as at least one.
pub open spec fn plan_sweeps(p: Plan) -> int {
    p.burn_in + p.draws * (if p.thin >= 1 { p.thin as int } else { 1 })
}

impl Plan {
    /// A plan keeping `draws` states after `burn_in` sweeps, one every `thin` sweeps (at least one).
    pub fn new(burn_in: usize, draws: usize, thin: usize) -> (p: Plan)
        ensures
            p.burn_in == burn_in,
            p.draws == draws,
            p.thin == (if thin >= 1 { thin } else { 1 }),
    {
        Plan { burn_in, draws, thin: if thin >= 1 { thin } else { 1 } }
    }

    /// Total sweeps this plan runs, burn-in included: what sampling is charged for, per free node.
    pub fn sweeps(&self) -> (s: usize)
        requires
            plan_sweeps(*self) <= usize::MAX,
        ensures
            s == plan_sweeps(*self),
    {
        let t = if self.thin >= 1 { self.thin } else { 1 };
        proof {
            assert(0 <= self.draws * t <= plan_sweeps(*self)) by (nonlinear_arith)
                requires
                    t >= 1,
                    plan_sweeps(*self) == self.burn_in + self.draws * t,
            ;
        }
        self.burn_in + self.draws * t
    }
}

} // verus!
