//! How much of the backend's handle spaces formulas may still take.

use crate::lower::backend::{BoolValue, Fault, IncrementalBackend};
use crate::lower::nodes::NodeView;
use vstd::prelude::*;

verus! {

/// The most variables that encoding one formula takes, its parts being encoded.
pub open spec fn node_cost(node: NodeView) -> nat {
    4 * (node.parts.len() * node.parts.len()) + 8
}

/// What storing a formula with `k` parts takes, its encoding paid for.
pub open spec fn list_cost(k: nat) -> nat {
    4 * (k * k) + 9
}

/// A step within its means: it takes at most `w` handles, and it runs out of them only where
/// those in use and `w` more are all that there are.
pub open spec fn charged<T>(before: nat, after: nat, result: Result<T, Fault>, w: nat) -> bool {
    match result {
        Err(Fault::Full(_)) => before + w >= u32::MAX,
        _ => after <= before + w,
    }
}

/// The formula has been encoded.
pub open spec fn encoded(cache: Seq<Option<BoolValue>>, i: int) -> bool {
    0 <= i < cache.len() && cache[i] is Some
}

/// What the first `n` formulas may still take: the costs of those that are not encoded.
pub open spec fn open_cost(cache: Seq<Option<BoolValue>>, nodes: Seq<NodeView>, n: nat) -> nat
    decreases n,
{
    if n == 0 {
        0
    } else {
        let i = n - 1;
        open_cost(cache, nodes, i as nat) + if encoded(cache, i) {
            0
        } else {
            node_cost(nodes[i])
        }
    }
}

/// Encoding formula `i` pays for it, and every other formula costs what it did.
pub proof fn lemma_open_cost_set(
    cache: Seq<Option<BoolValue>>,
    more: Seq<Option<BoolValue>>,
    nodes: Seq<NodeView>,
    i: int,
    n: nat,
)
    requires
        0 <= i < nodes.len(),
        n <= nodes.len(),
        !encoded(cache, i),
        encoded(more, i),
        forall|j: int| j != i ==> #[trigger] encoded(more, j) == encoded(cache, j),
    ensures
        open_cost(cache, nodes, n) == open_cost(more, nodes, n) + if i < n {
            node_cost(nodes[i])
        } else {
            0
        },
    decreases n,
{
    if n > 0 {
        lemma_open_cost_set(cache, more, nodes, i, (n - 1) as nat);
    }
}

/// A formula that is not encoded is part of the sum.
pub proof fn lemma_open_cost_member(
    cache: Seq<Option<BoolValue>>,
    nodes: Seq<NodeView>,
    i: int,
    n: nat,
)
    requires
        0 <= i < n,
        !encoded(cache, i),
    ensures
        open_cost(cache, nodes, n) >= node_cost(nodes[i]),
    decreases n,
{
    if i < n - 1 {
        lemma_open_cost_member(cache, nodes, i, (n - 1) as nat);
    }
}

/// The costs of the first formulas do not depend on those that follow.
pub proof fn lemma_open_cost_same(
    cache: Seq<Option<BoolValue>>,
    nodes: Seq<NodeView>,
    more: Seq<NodeView>,
    n: nat,
)
    requires
        n <= nodes.len(),
        n <= more.len(),
        forall|j: int| 0 <= j < n ==> #[trigger] more[j] == nodes[j],
    ensures
        open_cost(cache, more, n) == open_cost(cache, nodes, n),
    decreases n,
{
    if n > 0 {
        lemma_open_cost_same(cache, nodes, more, (n - 1) as nat);
        assert(more[n - 1] == nodes[n - 1]);
    }
}

impl IncrementalBackend {
    /// The handles in use, and those that encoding the formulas may still take.
    pub open spec fn load(&self, nodes: Seq<NodeView>) -> nat {
        self.solid() + open_cost(self.formula_cache@, nodes, nodes.len())
    }
}

} // verus!
