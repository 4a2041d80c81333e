//! Sums over finite prefixes of number sequences.

use vstd::prelude::*;

verus! {

/// Sum of the first `n` entries.
pub open spec fn sum_to(s: Seq<nat>, n: int) -> nat
    decreases n,
{
    if n <= 0 {
        0
    } else {
        sum_to(s, n - 1) + s[n - 1]
    }
}

/// Replacing one entry changes the sum by the difference.
pub proof fn lemma_sum_update(s: Seq<nat>, n: int, i: int, v: nat)
    requires
        0 <= i < s.len(),
        0 <= n <= s.len(),
    ensures
        sum_to(s.update(i, v), n) == if i < n {
            sum_to(s, n) - s[i] + v
        } else {
            sum_to(s, n) as int
        },
    decreases n,
{
    if n > 0 {
        lemma_sum_update(s, n - 1, i, v);
    }
}

/// No entry exceeds the sum.
pub proof fn lemma_sum_member(s: Seq<nat>, n: int, i: int)
    requires
        0 <= i < n <= s.len(),
    ensures
        s[i] <= sum_to(s, n),
    decreases n,
{
    if i < n - 1 {
        lemma_sum_member(s, n - 1, i);
    }
}

/// No two entries exceed the sum.
pub proof fn lemma_sum_pair(s: Seq<nat>, n: int, i: int, j: int)
    requires
        0 <= i < n <= s.len(),
        0 <= j < n,
        i != j,
    ensures
        s[i] + s[j] <= sum_to(s, n),
    decreases n,
{
    if i == n - 1 {
        lemma_sum_member(s, n - 1, j);
    } else if j == n - 1 {
        lemma_sum_member(s, n - 1, i);
    } else {
        lemma_sum_pair(s, n - 1, i, j);
    }
}

/// The sum of ones is their number.
pub proof fn lemma_sum_ones(s: Seq<nat>, n: int)
    requires
        0 <= n <= s.len(),
        forall|i: int| 0 <= i < s.len() ==> s[i] == 1,
    ensures
        sum_to(s, n) == n,
    decreases n,
{
    if n > 0 {
        lemma_sum_ones(s, n - 1);
    }
}

} // verus!
