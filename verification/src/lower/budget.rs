//! How finely a search is metered.

use crate::batch::{stock, supply_of, Batch};
use crate::effort::{drawn, metered};
use crate::euf_core::CheckBudget;
use vstd::prelude::*;

verus! {

/// Number of internal checkpoints grouped into one external budget unit.
pub const QUANTUM: u16 = 1024;

/// The number of batches that `n` checkpoints start.
pub open spec fn units(n: nat) -> nat {
    ((n + QUANTUM - 1) / QUANTUM as int) as nat
}

/// Work that passes `n` checkpoints in batches draws one unit of the budget for every batch that it
/// starts.
pub proof fn lemma_batches_drawn<B: CheckBudget>(
    before: &B,
    start: Batch,
    after: &B,
    end: Batch,
    n: nat,
)
    requires
        start == (Batch { quantum: QUANTUM, remaining: 0 }),
        end.wf(),
        end.quantum == QUANTUM,
        drawn(stock(before, start), stock(after, end), n),
    ensures
        drawn(supply_of(before), supply_of(after), units(n)),
{
    let u = units(n);
    assert forall|k: nat| #[trigger] supply_of(before)(k) implies k >= u && supply_of(after)(
        (k - u) as nat,
    ) by {
        assert(before.supply(k));
        assert(stock(before, start)(QUANTUM as nat * k));
        let left = (QUANTUM * k - n) as nat;
        assert(stock(after, end)(left));
        let j = choose|j: nat| #[trigger] after.supply(j) && left == end.remaining + QUANTUM * j;
        assert(k - j == u);
    }
}

/// Batched work is metered by the budget, one unit for every batch.
pub proof fn lemma_batched<B: CheckBudget>(
    before: &B,
    start: Batch,
    after: &B,
    end: Batch,
    finished: bool,
    bound: nat,
)
    requires
        start == (Batch { quantum: QUANTUM, remaining: 0 }),
        end.wf(),
        end.quantum == QUANTUM,
        metered(stock(before, start), stock(after, end), finished, bound),
    ensures
        metered(supply_of(before), supply_of(after), finished, units(bound)),
{
    if finished {
        let n = choose|n: nat|
            1 <= n <= bound && #[trigger] drawn(stock(before, start), stock(after, end), n);
        lemma_batches_drawn(before, start, after, end, n);
        assert(1 <= units(n) <= units(bound));
    } else {
        assert forall|k: nat| #[trigger] supply_of(before)(k) implies k < units(bound)
            && supply_of(after)(0) by {
            assert(before.supply(k));
            assert(stock(before, start)(QUANTUM as nat * k));
            assert(stock(after, end)(0));
        }
    }
}

} // verus!
