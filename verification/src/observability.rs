//! A tiny solver model that produces synthetic events for metrics.

use vstd::prelude::*;

verus! {

/// Counters accumulated between emitted samples.
#[derive(Debug, Clone, Copy, PartialEq, Eq, Structural)]
pub struct Stats {
    /// Number of steps executed since the last flush.
    pub steps: u64,
    /// Number of conflicts observed since the last flush.
    pub conflicts: u64,
    /// Number of propagations observed since the last flush.
    pub propagations: u64,
    /// Number of decisions observed since the last flush.
    pub decisions: u64,
}

impl Stats {
    /// Counters at zero.
    pub open spec fn cleared() -> Stats {
        Stats { steps: 0, conflicts: 0, propagations: 0, decisions: 0 }
    }

    /// One more step leaves all counters in range.
    pub open spec fn has_room(self) -> bool {
        &&& self.steps < u64::MAX
        &&& self.conflicts < u64::MAX
        &&& self.decisions < u64::MAX
        &&& self.propagations + 8 <= u64::MAX
    }

    /// Returns counters at zero.
    pub fn new() -> (stats: Self)
        ensures
            stats == Stats::cleared(),
    {
        Stats { steps: 0, conflicts: 0, propagations: 0, decisions: 0 }
    }

    /// Resets the counters and returns what they held.
    pub fn take_stats(&mut self) -> (sample: Stats)
        ensures
            sample == *old(self),
            *final(self) == Stats::cleared(),
    {
        let sample = *self;
        *self = Stats::new();
        sample
    }
}

/// The generator's state after one step.
pub open spec fn next_random(state: u64) -> u64 {
    ((state as int * 6_364_136_223_846_793_005 + 1) % 0x1_0000_0000_0000_0000) as u64
}

/// Tiny stateful solver model.
#[derive(Debug, Clone, Copy, PartialEq, Eq, Structural)]
pub struct Solver {
    /// Remaining number of steps before the solver reports completion.
    pub remaining_steps: u64,
    /// Linear-congruential generator state.
    pub rng: u64,
}

/// Total number of loop iterations executed by the demo solver.
pub const TOTAL_STEPS: u64 = 2_000_000_000;

impl Solver {
    /// Creates a new solver with a fixed pseudo-random seed.
    pub fn new() -> (solver: Self)
        ensures
            solver.remaining_steps == TOTAL_STEPS,
            solver.rng == 0x1234_5678_9abc_def0,
    {
        Solver { remaining_steps: TOTAL_STEPS, rng: 0x1234_5678_9abc_def0 }
    }

    /// Returns whether all scheduled work has been consumed.
    pub fn done(&self) -> (answer: bool)
        ensures
            answer == (self.remaining_steps == 0),
    {
        self.remaining_steps == 0
    }

    /// Executes one synthetic solver step and updates the counters.
    pub fn step(&mut self, stats: &mut Stats)
        requires
            old(self).remaining_steps > 0,
            old(stats).has_room(),
        ensures
            final(self).remaining_steps == old(self).remaining_steps - 1,
            final(self).rng == next_random(old(self).rng),
            final(stats).steps == old(stats).steps + 1,
            final(stats).conflicts == old(stats).conflicts + if final(self).rng % 256 == 0 {
                1int
            } else {
                0
            },
            final(stats).decisions == old(stats).decisions + if final(self).rng % 64 == 0 {
                1int
            } else {
                0
            },
            final(stats).propagations == old(stats).propagations + 1 + final(self).rng % 8,
    {
        self.remaining_steps = self.remaining_steps - 1;
        let state = self.rng;
        let product = state.wrapping_mul(6_364_136_223_846_793_005);
        let rng = product.wrapping_add(1);
        proof {
            lemma_next_random(state, product, rng);
        }
        self.rng = rng;
        stats.steps = stats.steps + 1;
        if rng % 256 == 0 {
            stats.conflicts = stats.conflicts + 1;
        }
        if rng % 64 == 0 {
            stats.decisions = stats.decisions + 1;
        }
        stats.propagations = stats.propagations + (1 + rng % 8);
    }
}

proof fn lemma_next_random(state: u64, product: u64, rng: u64)
    requires
        product == (state as int * 6_364_136_223_846_793_005) % 0x1_0000_0000_0000_0000,
        rng == (product + 1) % 0x1_0000_0000_0000_0000,
    ensures
        rng == next_random(state),
{
    let x = state as int * 6_364_136_223_846_793_005;
    let w = 0x1_0000_0000_0000_0000int;
    vstd::arithmetic::div_mod::lemma_add_mod_noop(x, 1, w);
    assert(1int % w == 1) by {
        vstd::arithmetic::div_mod::lemma_small_mod(1nat, w as nat);
    }
}

} // verus!
