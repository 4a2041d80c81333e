//! Batching of fine-grained checkpoints.

use crate::effort::Supply;
use crate::euf_core::CheckBudget;
use vstd::prelude::*;

verus! {

/// Groups fine-grained checkpoints: a budget is asked once for every batch of them.
///
/// Charging one unit for every internal step interrupts otherwise tractable searches much earlier
/// than intended. A batch keeps the interruption interface while amortizing the accounting cost.
#[derive(Debug, Clone, Copy, PartialEq, Eq, Structural)]
pub struct Batch {
    /// Number of checkpoints in one batch.
    pub quantum: u16,
    /// Remaining checkpoints of the batch that has been charged.
    pub remaining: u16,
}

impl Batch {
    /// Fewer checkpoints remain than a batch has.
    pub open spec fn wf(self) -> bool {
        self.remaining < self.quantum
    }

    /// Starts with batches of `quantum` checkpoints, none of them charged.
    pub fn new(quantum: u16) -> (batch: Self)
        requires
            quantum > 0,
        ensures
            batch.wf(),
            batch == (Batch { quantum, remaining: 0 }),
    {
        Batch { quantum, remaining: 0 }
    }

    /// Passes one checkpoint, asking the budget where a new batch starts, and returns `false` when
    /// the caller must stop.
    pub fn checkpoint<B: CheckBudget>(&mut self, budget: &mut B) -> (go: bool)
        requires
            old(self).wf(),
        ensures
            final(self).wf(),
            final(self).quantum == old(self).quantum,
            old(budget).unlimited() ==> go && final(budget).unlimited(),
            old(self).remaining > 0 ==> {
                &&& go
                &&& final(self).remaining == old(self).remaining - 1
                &&& *final(budget) == *old(budget)
            },
            old(self).remaining == 0 && go ==> final(self).remaining == old(self).quantum - 1,
            old(self).remaining == 0 && !go ==> final(self).remaining == 0,
            forall|k: nat| #[trigger]
                stock(old(budget), *old(self))(k) ==> go == (k > 0) && stock(
                    final(budget),
                    *final(self),
                )(
                    if k > 0 {
                        (k - 1) as nat
                    } else {
                        0
                    },
                ),
    {
        let ghost b0 = *budget;
        let ghost q = self.quantum as int;
        if self.remaining == 0 {
            if !budget.checkpoint() {
                proof {
                    assert forall|k: nat| #[trigger] stock(old(budget), *old(self))(k) implies k == 0
                        && stock(budget, *self)(0) by {
                        let j = choose|j: nat| #[trigger]
                            b0.supply(j) && k == old(self).remaining + q * j;
                        assert(q * 0 == 0) by (nonlinear_arith);
                        assert(budget.supply(0));
                    }
                }
                return false;
            }
            self.remaining = self.quantum;
        }
        self.remaining = self.remaining - 1;
        proof {
            assert forall|k: nat| #[trigger] stock(old(budget), *old(self))(k) implies k > 0
                && stock(budget, *self)((k - 1) as nat) by {
                let j = choose|j: nat| #[trigger]
                    b0.supply(j) && k == old(self).remaining + q * j;
                if old(self).remaining > 0 {
                    assert(budget.supply(j));
                    assert(q * j >= 0) by (nonlinear_arith)
                        requires
                            q >= 0,
                    ;
                } else {
                    assert(budget.supply((j - 1) as nat));
                    assert(q * j == q + q * (j - 1)) by (nonlinear_arith);
                    assert(q * (j - 1) >= 0) by (nonlinear_arith)
                        requires
                            q >= 0,
                            j >= 1,
                    ;
                }
            }
        }
        true
    }
}

/// The checkpoints that budget and batch grant together.
pub open spec fn stock<B: CheckBudget>(budget: &B, batch: Batch) -> Supply {
    |k: nat| exists|j: nat| #[trigger] budget.supply(j) && k == batch.remaining + batch.quantum * j
}

/// The checkpoints that a budget grants.
pub open spec fn supply_of<B: CheckBudget>(budget: &B) -> Supply {
    |k: nat| budget.supply(k)
}

/// In batches of one checkpoint a budget grants what it grants by itself.
pub proof fn lemma_single<B: CheckBudget>(budget: &B, batch: Batch)
    requires
        batch.wf(),
        batch.quantum == 1,
    ensures
        stock(budget, batch) == supply_of(budget),
{
    assert forall|k: nat| #[trigger] stock(budget, batch)(k) == supply_of(budget)(k) by {
        if budget.supply(k) {
            assert(k == batch.remaining + batch.quantum * k);
        }
    }
    assert(stock(budget, batch) =~= supply_of(budget));
}

} // verus!
