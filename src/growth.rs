use vstd::prelude::*;

verus! {

/// Computes the total capacity that an allocator grows to when no free run
/// can serve a request.
///
/// The result is a proposal: the allocator uses it only when it exceeds the
/// current capacity, and asks again while the request still does not fit.
pub trait GrowthPolicy {
    /// The capacity that the policy proposes: a function of the policy and
    /// its two arguments.
    spec fn proposal(&self, current_capacity: usize, requested_minimum: usize) -> usize;

    fn new_capacity(&self, current_capacity: usize, requested_minimum: usize) -> (r: usize)
        ensures
            r == self.proposal(current_capacity, requested_minimum),
    ;
}

/// The growth by half of the current capacity, as dynamic arrays grow.
pub open spec fn default_growth(current_capacity: nat) -> nat {
    current_capacity + current_capacity / 2
}

/// `current + current / 2`, held at `usize::MAX` where it would not fit. The
/// requested minimum does not enter into it.
pub fn calculate_new_capacity_default(current_capacity: usize, _requested_capacity: usize) -> (r:
    usize)
    ensures
        r == if default_growth(current_capacity as nat) <= usize::MAX {
            default_growth(current_capacity as nat)
        } else {
            usize::MAX as nat
        },
{
    current_capacity.saturating_add(current_capacity / 2)
}

/// The policy that a new allocator starts with.
#[derive(Debug, Clone, Copy, Default)]
pub struct DefaultGrowth;

impl GrowthPolicy for DefaultGrowth {
    open spec fn proposal(&self, current_capacity: usize, requested_minimum: usize) -> usize {
        if default_growth(current_capacity as nat) <= usize::MAX {
            default_growth(current_capacity as nat) as usize
        } else {
            usize::MAX
        }
    }

    fn new_capacity(&self, current_capacity: usize, requested_minimum: usize) -> usize {
        calculate_new_capacity_default(current_capacity, requested_minimum)
    }
}

} // verus!
