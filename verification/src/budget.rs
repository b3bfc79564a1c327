//! The per-tick budget of world edits.
use vstd::prelude::*;

verus! {

/// How many edits a tick may make, and how many are left in this tick.
#[derive(Debug, Clone, Copy, PartialEq, Eq, Structural)]
pub struct EditBudget {
    pub per_tick: u32,
    pub remaining: u32,
}

impl Default for EditBudget {
    /// Sixteen edits per tick, all still available.
    fn default() -> (r: Self)
        ensures
            r.per_tick == 16,
            r.remaining == 16,
    {
        EditBudget { per_tick: 16, remaining: 16 }
    }
}

/// Start a tick: the whole per-tick allowance is available again.
pub fn reset_edit_budget(budget: &mut EditBudget)
    ensures
        final(budget).per_tick == old(budget).per_tick,
        final(budget).remaining == old(budget).per_tick,
{
    budget.remaining = budget.per_tick;
}

} // verus!
