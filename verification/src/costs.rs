//! What the checkpoints of a consistency check count.

use crate::effort::{
    check_cost, marked_args, pass_cost, relevant, relevant_to, scan_cost, united,
    walk_cost, Labels,
};
use crate::semantics::{mentioned, violated, AtomView, TermView};
use crate::sums::sum_to;
use vstd::prelude::*;

verus! {

proof fn lemma_relevant_to(terms: Seq<TermView>, atoms: Seq<AtomView>, n: nat)
    ensures
        forall|t: int| #[trigger] relevant_to(terms, atoms, n).contains(t) <==> 0 <= t < n
            && mentioned(terms, atoms, t),
        forall|i: int, j: int|
            0 <= i < j < relevant_to(terms, atoms, n).len() ==> #[trigger] relevant_to(
                terms,
                atoms,
                n,
            )[i] < #[trigger] relevant_to(terms, atoms, n)[j],
    decreases n,
{
    if n > 0 {
        let m = (n - 1) as nat;
        lemma_relevant_to(terms, atoms, m);
        let before = relevant_to(terms, atoms, m);
        let list = relevant_to(terms, atoms, n);
        assert forall|i: int| 0 <= i < before.len() implies #[trigger] before[i] < m by {
            assert(before.contains(before[i]));
        }
        if mentioned(terms, atoms, n - 1) {
            assert(list == before.push(n - 1));
            assert forall|t: int| #[trigger] list.contains(t) <==> 0 <= t < n && mentioned(
                terms,
                atoms,
                t,
            ) by {
                if list.contains(t) {
                    let i = choose|i: int| 0 <= i < list.len() && list[i] == t;
                    if i < before.len() {
                        assert(before[i] == t);
                        assert(before.contains(t));
                    }
                }
                if 0 <= t < n && mentioned(terms, atoms, t) {
                    if t < m {
                        assert(before.contains(t));
                        let i = choose|i: int| 0 <= i < before.len() && before[i] == t;
                        assert(list[i] == t);
                    } else {
                        assert(list[before.len() as int] == t);
                    }
                }
            }
        }
    }
}

/// A pass looks at the terms that the atoms mention, each once, in ascending order.
pub proof fn lemma_relevant(terms: Seq<TermView>, atoms: Seq<AtomView>, t: int, i: int, j: int)
    ensures
        relevant(terms, atoms).contains(t) <==> 0 <= t < terms.len() && mentioned(terms, atoms, t),
        0 <= i < j < relevant(terms, atoms).len() ==> relevant(terms, atoms)[i] < relevant(
            terms,
            atoms,
        )[j],
{
    lemma_relevant_to(terms, atoms, terms.len());
    if relevant(terms, atoms).contains(t) {
        assert(relevant_to(terms, atoms, terms.len()).contains(t));
    }
}

/// Walking terms costs one checkpoint for each, and one for each of its arguments; a pass costs one more.
pub proof fn lemma_pass_cost(terms: Seq<TermView>, list: Seq<int>)
    ensures
        pass_cost(terms, list) == 1 + list.len() + sum_to(
            list.map_values(|t: int| terms[t].args.len()),
            list.len() as int,
        ),
{
    lemma_walk(terms, list, list.len());
}

proof fn lemma_walk(terms: Seq<TermView>, list: Seq<int>, n: nat)
    requires
        n <= list.len(),
    ensures
        walk_cost(terms, list, n) == n + sum_to(
            list.map_values(|t: int| terms[t].args.len()),
            n as int,
        ),
    decreases n,
{
    if n > 0 {
        lemma_walk(terms, list, (n - 1) as nat);
    }
}

/// The arguments of marked terms are added up, and those of others are not.
pub proof fn lemma_marked_args(terms: Seq<TermView>, marks: spec_fn(int) -> bool, n: nat)
    ensures
        marked_args(terms, marks, n) == sum_to(
            Seq::new(
                n,
                |t: int|
                    if marks(t) {
                        terms[t].args.len()
                    } else {
                        0
                    },
            ),
            n as int,
        ),
{
    lemma_marked_to(terms, marks, n, n);
}

proof fn lemma_marked_to(terms: Seq<TermView>, marks: spec_fn(int) -> bool, n: nat, m: nat)
    requires
        m <= n,
    ensures
        marked_args(terms, marks, m) == sum_to(
            Seq::new(
                n,
                |t: int|
                    if marks(t) {
                        terms[t].args.len()
                    } else {
                        0
                    },
            ),
            m as int,
        ),
    decreases m,
{
    if m > 0 {
        lemma_marked_to(terms, marks, n, (m - 1) as nat);
    }
}

/// Looking for a contradicted disequality costs one checkpoint for every atom up to the first one, or for
/// every atom where there is none.
pub proof fn lemma_scan_cost(terms: Seq<TermView>, atoms: Seq<AtomView>, from: nat, k: nat)
    requires
        from <= k <= atoms.len(),
        forall|j: int| from <= j < k ==> !#[trigger] violated(terms, atoms, j),
        k < atoms.len() ==> violated(terms, atoms, k as int),
    ensures
        scan_cost(terms, atoms, from) == k - from + if k < atoms.len() {
            1int
        } else {
            0
        },
    decreases k - from,
{
    if from < k {
        assert(!violated(terms, atoms, from as int));
        lemma_scan_cost(terms, atoms, from + 1, k);
    }
}

/// One more pass costs what one pass costs.
pub proof fn lemma_one_more_pass(terms: Seq<TermView>, atoms: Seq<AtomView>, n: nat)
    ensures
        check_cost(terms, atoms, n + 1) == check_cost(terms, atoms, n) + pass_cost(
            terms,
            relevant(terms, atoms),
        ),
{
    let c = pass_cost(terms, relevant(terms, atoms));
    assert((n + 1) * c == n * c + c) by (nonlinear_arith);
}

/// Uniting two classes makes one of them, and leaves all others as they are.
pub proof fn lemma_united(s: Labels, a: int, b: int, x: int, y: int)
    requires
        0 <= a < s.root.len(),
        0 <= b < s.root.len(),
        0 <= x < s.root.len(),
        0 <= y < s.root.len(),
    ensures
        united(s, a, b).root.len() == s.root.len(),
        united(s, a, b).root[x] == united(s, a, b).root[y] <==> {
            ||| s.root[x] == s.root[y]
            ||| s.root[x] == s.root[a] && s.root[y] == s.root[b]
            ||| s.root[x] == s.root[b] && s.root[y] == s.root[a]
        },
{
}

} // verus!
