//! What a comparison of two runs says of their cases.

use crate::harness::compare::{
    changes_between, differing, indexed, key_of, last_with, lemma_indexed,
    lemma_match, same_outcome, same_runs, saved, unmatched, ChangedCase, RunComparison,
};
use crate::harness::model::{CaseOutcome, OutcomeCategory};
use crate::order::text_before;
use vstd::prelude::*;

verus! {

/// Two outcomes match exactly when they have the same category, the same detail and the same queries
/// with the same numbers, categories, expected answers and actual answers. Times, sizes and telemetry
/// do not matter.
pub proof fn lemma_outcomes_match(a: CaseOutcome, b: CaseOutcome)
    ensures
        same_outcome(a, b) <==> {
            &&& a.category == b.category
            &&& a.detail is Some <==> b.detail is Some
            &&& a.detail is Some ==> a.detail->0@ == b.detail->0@
            &&& a.queries@.len() == b.queries@.len()
            &&& forall|i: int|
                0 <= i < a.queries@.len() ==> {
                    let x = #[trigger] a.queries@[i];
                    let y = b.queries@[i];
                    x.query_index == y.query_index && x.category == y.category && x.expected
                        == y.expected && x.actual == y.actual
                }
        },
{
    if same_outcome(a, b) {
        assert forall|i: int| 0 <= i < a.queries@.len() implies ({
            let x = #[trigger] a.queries@[i];
            let y = b.queries@[i];
            x.query_index == y.query_index && x.category == y.category && x.expected == y.expected
                && x.actual == y.actual
        }) by {}
    }
}

/// A difference in one answer, one expectation, one query category, one query number, the category, the
/// detail or the number of queries is enough for two outcomes not to match.
pub proof fn lemma_one_difference(a: CaseOutcome, b: CaseOutcome, i: int)
    requires
        ({
            ||| a.category != b.category
            ||| a.queries@.len() != b.queries@.len()
            ||| (a.detail is Some) != (b.detail is Some)
            ||| a.detail is Some && b.detail is Some && a.detail->0@ != b.detail->0@
            ||| 0 <= i < a.queries@.len() && i < b.queries@.len() && {
                ||| a.queries@[i].actual != b.queries@[i].actual
                ||| a.queries@[i].expected != b.queries@[i].expected
                ||| a.queries@[i].category != b.queries@[i].category
                ||| a.queries@[i].query_index != b.queries@[i].query_index
            }
        }),
    ensures
        !same_outcome(a, b),
{
    lemma_outcomes_match(a, b);
    if same_outcome(a, b) && 0 <= i < a.queries@.len() {
        let x = a.queries@[i];
        assert(x.actual == b.queries@[i].actual);
    }
}

/// Case `i` is the last one with its key.
pub open spec fn counts(cases: Seq<CaseOutcome>, i: int) -> bool {
    &&& 0 <= i < cases.len()
    &&& forall|j: int| i < j < cases.len() ==> (#[trigger] cases[j]).case.key@ != cases[i].case.key@
}

/// Some case has this key.
pub open spec fn has_key(cases: Seq<CaseOutcome>, key: Seq<char>) -> bool {
    exists|j: int| 0 <= j < cases.len() && (#[trigger] cases[j]).case.key@ == key
}

proof fn lemma_last(cases: Seq<CaseOutcome>, key: Seq<char>, n: nat)
    requires
        n <= cases.len(),
    ensures
        match last_with(cases, key, n) {
            Some(k) => 0 <= k < n && cases[k].case.key@ == key && forall|j: int|
                k < j < n ==> (#[trigger] cases[j]).case.key@ != key,
            None => forall|j: int| 0 <= j < n ==> (#[trigger] cases[j]).case.key@ != key,
        },
    decreases n,
{
    if n > 0 {
        lemma_last(cases, key, (n - 1) as nat);
        assert(key_of(cases, n - 1) == cases[n - 1].case.key@);
    }
}

proof fn lemma_saved_counts(cases: Seq<CaseOutcome>, i: int)
    requires
        counts(cases, i),
    ensures
        saved(cases, cases[i].case.key@) == Some(i),
{
    lemma_last(cases, cases[i].case.key@, cases.len());
    let k = saved(cases, cases[i].case.key@);
    if k is Some {
        if k->0 < i {
            assert(cases[i].case.key@ != cases[i].case.key@);
        } else if k->0 > i {
            assert(cases[k->0].case.key@ != cases[i].case.key@);
        }
    } else {
        assert(cases[i].case.key@ != cases[i].case.key@);
    }
}

proof fn lemma_indexed_at(cases: Seq<CaseOutcome>, i: int) -> (at: int)
    requires
        counts(cases, i),
    ensures
        0 <= at < indexed(cases, cases.len()).len(),
        indexed(cases, cases.len())[at] == i,
{
    let index = indexed(cases, cases.len());
    lemma_indexed(cases, cases.len());
    lemma_saved_counts(cases, i);
    let at = choose|at: int|
        0 <= at < index.len() && key_of(cases, #[trigger] index[at]) == key_of(cases, i);
    assert(last_with(cases, key_of(cases, index[at]), cases.len()) == Some(index[at]));
    at
}

proof fn lemma_differing_has(
    cases: Seq<CaseOutcome>,
    index: Seq<int>,
    others: Seq<CaseOutcome>,
    n: nat,
    at: int,
    k: int,
) -> (p: int)
    requires
        0 <= at < n <= index.len(),
        saved(others, key_of(cases, index[at])) == Some(k),
        !same_outcome(cases[index[at]], others[k]),
    ensures
        0 <= p < differing(cases, index, others, n).len(),
        differing(cases, index, others, n)[p] == (index[at], k),
    decreases n,
{
    if at == n - 1 {
        differing(cases, index, others, (n - 1) as nat).len() as int
    } else {
        lemma_differing_has(cases, index, others, (n - 1) as nat, at, k)
    }
}

proof fn lemma_differing_from(
    cases: Seq<CaseOutcome>,
    index: Seq<int>,
    others: Seq<CaseOutcome>,
    n: nat,
    p: int,
) -> (at: int)
    requires
        n <= index.len(),
        0 <= p < differing(cases, index, others, n).len(),
    ensures
        0 <= at < n,
        differing(cases, index, others, n)[p].0 == index[at],
        saved(others, key_of(cases, index[at])) == Some(differing(cases, index, others, n)[p].1),
        !same_outcome(cases[index[at]], others[differing(cases, index, others, n)[p].1]),
    decreases n,
{
    let before = differing(cases, index, others, (n - 1) as nat);
    if p < before.len() {
        lemma_differing_from(cases, index, others, (n - 1) as nat, p)
    } else {
        n - 1
    }
}

proof fn lemma_unmatched_has(
    cases: Seq<CaseOutcome>,
    index: Seq<int>,
    others: Seq<CaseOutcome>,
    n: nat,
    at: int,
) -> (p: int)
    requires
        0 <= at < n <= index.len(),
        saved(others, key_of(cases, index[at])) is None,
    ensures
        0 <= p < unmatched(cases, index, others, n).len(),
        unmatched(cases, index, others, n)[p] == index[at],
    decreases n,
{
    if at == n - 1 {
        unmatched(cases, index, others, (n - 1) as nat).len() as int
    } else {
        lemma_unmatched_has(cases, index, others, (n - 1) as nat, at)
    }
}

proof fn lemma_unmatched_from(
    cases: Seq<CaseOutcome>,
    index: Seq<int>,
    others: Seq<CaseOutcome>,
    n: nat,
    p: int,
) -> (at: int)
    requires
        n <= index.len(),
        0 <= p < unmatched(cases, index, others, n).len(),
    ensures
        0 <= at < n,
        unmatched(cases, index, others, n)[p] == index[at],
        saved(others, key_of(cases, index[at])) is None,
    decreases n,
{
    let before = unmatched(cases, index, others, (n - 1) as nat);
    if p < before.len() {
        lemma_unmatched_from(cases, index, others, (n - 1) as nat, p)
    } else {
        n - 1
    }
}

/// Where both runs have a case under one key, their last ones, the comparison lists the pair as changed
/// exactly when the two outcomes do not match, and runs with such a pair do not match.
pub proof fn lemma_pair_reported(
    comparison: RunComparison,
    left: Seq<CaseOutcome>,
    right: Seq<CaseOutcome>,
    i: int,
    j: int,
)
    requires
        comparison.compares(left, right),
        counts(left, i),
        counts(right, j),
        left[i].case.key@ == right[j].case.key@,
    ensures
        !same_outcome(left[i], right[j]) ==> comparison.changed@.len() > 0 && exists|p: int|
            0 <= p < comparison.changed@.len() && (#[trigger] comparison.changed@[p]).key@
                == left[i].case.key@ && *comparison.changed@[p].left == left[i]
                && *comparison.changed@[p].right == right[j],
        !same_outcome(left[i], right[j]) ==> !same_runs(left, right),
        same_outcome(left[i], right[j]) ==> forall|p: int|
            0 <= p < comparison.changed@.len() ==> (#[trigger] comparison.changed@[p]).key@
                != left[i].case.key@,
{
    let l = indexed(left, left.len());
    lemma_indexed(left, left.len());
    let at = lemma_indexed_at(left, i);
    lemma_saved_counts(left, i);
    lemma_saved_counts(right, j);
    assert(key_of(left, l[at]) == left[i].case.key@);
    let pairs = differing(left, l, right, l.len());
    if !same_outcome(left[i], right[j]) {
        let p = lemma_differing_has(left, l, right, l.len(), at, j);
        assert(*comparison.changed@[p].left == left[pairs[p].0]);
        lemma_match(comparison, left, right);
    } else {
        assert forall|p: int| 0 <= p < comparison.changed@.len() implies (
        #[trigger] comparison.changed@[p]).key@ != left[i].case.key@ by {
            let from = lemma_differing_from(left, l, right, l.len(), p);
            assert(comparison.changed@[p].key@ == key_of(left, pairs[p].0));
            if comparison.changed@[p].key@ == left[i].case.key@ {
                assert(last_with(left, key_of(left, l[from]), left.len()) == Some(l[from]));
                assert(l[from] == i);
            }
        }
    }
}

/// A case whose key the other run lacks is listed as missing there, on its own side, and nothing else
/// is; such runs do not match.
pub proof fn lemma_missing_reported(
    comparison: RunComparison,
    left: Seq<CaseOutcome>,
    right: Seq<CaseOutcome>,
    i: int,
)
    requires
        comparison.compares(left, right),
    ensures
        counts(left, i) && !has_key(right, left[i].case.key@) ==> exists|p: int|
            0 <= p < comparison.only_left@.len() && *(#[trigger] comparison.only_left@[p])
                == left[i],
        counts(left, i) && !has_key(right, left[i].case.key@) ==> !same_runs(left, right),
        counts(right, i) && !has_key(left, right[i].case.key@) ==> exists|p: int|
            0 <= p < comparison.only_right@.len() && *(#[trigger] comparison.only_right@[p])
                == right[i],
        0 <= i < comparison.only_left@.len() ==> !has_key(
            right,
            comparison.only_left@[i].case.key@,
        ) && left.contains(*comparison.only_left@[i]),
        0 <= i < comparison.only_right@.len() ==> !has_key(
            left,
            comparison.only_right@[i].case.key@,
        ) && right.contains(*comparison.only_right@[i]),
{
    let l = indexed(left, left.len());
    let r = indexed(right, right.len());
    lemma_indexed(left, left.len());
    lemma_indexed(right, right.len());
    if counts(left, i) && !has_key(right, left[i].case.key@) {
        let at = lemma_indexed_at(left, i);
        lemma_last(right, left[i].case.key@, right.len());
        assert(key_of(left, l[at]) == left[i].case.key@);
        let p = lemma_unmatched_has(left, l, right, l.len(), at);
        assert(*comparison.only_left@[p] == left[unmatched(left, l, right, l.len())[p]]);
        lemma_match(comparison, left, right);
    }
    if counts(right, i) && !has_key(left, right[i].case.key@) {
        let at = lemma_indexed_at(right, i);
        lemma_last(left, right[i].case.key@, left.len());
        assert(key_of(right, r[at]) == right[i].case.key@);
        let p = lemma_unmatched_has(right, r, left, r.len(), at);
        assert(*comparison.only_right@[p] == right[unmatched(right, r, left, r.len())[p]]);
    }
    if 0 <= i < comparison.only_left@.len() {
        let at = lemma_unmatched_from(left, l, right, l.len(), i);
        assert(*comparison.only_left@[i] == left[l[at]]);
        lemma_last(right, key_of(left, l[at]), right.len());
        assert(left[l[at]] == *comparison.only_left@[i]);
    }
    if 0 <= i < comparison.only_right@.len() {
        let at = lemma_unmatched_from(right, r, left, r.len(), i);
        assert(*comparison.only_right@[i] == right[r[at]]);
        lemma_last(left, key_of(right, r[at]), left.len());
        assert(right[r[at]] == *comparison.only_right@[i]);
    }
}

/// Every listed change is one: both runs have the key, and the two outcomes do not match.
pub proof fn lemma_changes_are_changes(
    comparison: RunComparison,
    left: Seq<CaseOutcome>,
    right: Seq<CaseOutcome>,
    p: int,
)
    requires
        comparison.compares(left, right),
        0 <= p < comparison.changed@.len(),
    ensures
        ({
            let change = comparison.changed@[p];
            &&& left.contains(*change.left)
            &&& right.contains(*change.right)
            &&& change.left.case.key@ == change.key@
            &&& change.right.case.key@ == change.key@
            &&& !same_outcome(*change.left, *change.right)
        }),
{
    let l = indexed(left, left.len());
    lemma_indexed(left, left.len());
    let pairs = differing(left, l, right, l.len());
    let at = lemma_differing_from(left, l, right, l.len(), p);
    let change = comparison.changed@[p];
    assert(*change.left == left[pairs[p].0]);
    assert(*change.right == right[pairs[p].1]);
    lemma_last(right, key_of(left, l[at]), right.len());
    assert(left[l[at]] == *change.left);
    assert(right[pairs[p].1] == *change.right);
}

/// The changes that go from one side of failure to the other.
pub open spec fn crossing(changes: Seq<ChangedCase>, from: bool, to: bool, n: nat) -> Set<int> {
    Set::new(
        |i: int|
            0 <= i < n && failing(changes[i].left.category) == from && failing(
                changes[i].right.category,
            ) == to,
    )
}

/// Every category but a pass and a run that cannot be judged is a failure.
pub open spec fn failing(category: OutcomeCategory) -> bool {
    match category {
        OutcomeCategory::Pass => false,
        OutcomeCategory::NoOracle => false,
        OutcomeCategory::WrongAnswer => true,
        OutcomeCategory::ParseError => true,
        OutcomeCategory::Timeout => true,
        OutcomeCategory::Panic => true,
        OutcomeCategory::Killed => true,
        OutcomeCategory::HarnessError => true,
    }
}

/// Improvements are the changes from a failure to none, regressions those the other way round, and each
/// change counts once.
pub proof fn lemma_changes_counted(changes: Seq<ChangedCase>, from: bool, to: bool, n: nat)
    requires
        n <= changes.len(),
    ensures
        crossing(changes, from, to, n).finite(),
        changes_between(changes, from, to, n) == crossing(changes, from, to, n).len(),
    decreases n,
{
    if n == 0 {
        assert(crossing(changes, from, to, 0) =~= Set::<int>::empty());
    } else {
        lemma_changes_counted(changes, from, to, (n - 1) as nat);
        let before = crossing(changes, from, to, (n - 1) as nat);
        let now = crossing(changes, from, to, n);
        let last = changes[n - 1];
        if failing(last.left.category) == from && failing(last.right.category) == to {
            assert(now =~= before.insert(n - 1));
        } else {
            assert(now =~= before);
        }
    }
}

/// Sections list their cases in ascending order of their keys.
pub proof fn lemma_sections_ordered(
    comparison: RunComparison,
    left: Seq<CaseOutcome>,
    right: Seq<CaseOutcome>,
    p: int,
    q: int,
)
    requires
        comparison.compares(left, right),
        0 <= p < q,
    ensures
        q < comparison.only_left@.len() ==> text_before(
            comparison.only_left@[p].case.key@,
            comparison.only_left@[q].case.key@,
        ),
        q < comparison.only_right@.len() ==> text_before(
            comparison.only_right@[p].case.key@,
            comparison.only_right@[q].case.key@,
        ),
        q < comparison.changed@.len() ==> text_before(
            comparison.changed@[p].key@,
            comparison.changed@[q].key@,
        ),
{
    let l = indexed(left, left.len());
    let r = indexed(right, right.len());
    lemma_indexed(left, left.len());
    lemma_indexed(right, right.len());
    if q < comparison.only_left@.len() {
        let (x, y) = lemma_unmatched_order(left, l, right, l.len(), p, q);
        assert(text_before(key_of(left, l[x]), key_of(left, l[y])));
        assert(*comparison.only_left@[p] == left[l[x]]);
        assert(*comparison.only_left@[q] == left[l[y]]);
    }
    if q < comparison.only_right@.len() {
        let (x, y) = lemma_unmatched_order(right, r, left, r.len(), p, q);
        assert(text_before(key_of(right, r[x]), key_of(right, r[y])));
        assert(*comparison.only_right@[p] == right[r[x]]);
        assert(*comparison.only_right@[q] == right[r[y]]);
    }
    if q < comparison.changed@.len() {
        let (x, y) = lemma_differing_order(left, l, right, l.len(), p, q);
        assert(text_before(key_of(left, l[x]), key_of(left, l[y])));
        assert(comparison.changed@[p].key@ == key_of(left, l[x]));
        assert(comparison.changed@[q].key@ == key_of(left, l[y]));
    }
}

proof fn lemma_unmatched_order(
    cases: Seq<CaseOutcome>,
    index: Seq<int>,
    others: Seq<CaseOutcome>,
    n: nat,
    p: int,
    q: int,
) -> (at: (int, int))
    requires
        n <= index.len(),
        0 <= p < q < unmatched(cases, index, others, n).len(),
    ensures
        0 <= at.0 < at.1 < n,
        unmatched(cases, index, others, n)[p] == index[at.0],
        unmatched(cases, index, others, n)[q] == index[at.1],
    decreases n,
{
    let before = unmatched(cases, index, others, (n - 1) as nat);
    if q < before.len() {
        lemma_unmatched_order(cases, index, others, (n - 1) as nat, p, q)
    } else {
        (lemma_unmatched_from(cases, index, others, (n - 1) as nat, p), n - 1)
    }
}

proof fn lemma_differing_order(
    cases: Seq<CaseOutcome>,
    index: Seq<int>,
    others: Seq<CaseOutcome>,
    n: nat,
    p: int,
    q: int,
) -> (at: (int, int))
    requires
        n <= index.len(),
        0 <= p < q < differing(cases, index, others, n).len(),
    ensures
        0 <= at.0 < at.1 < n,
        differing(cases, index, others, n)[p].0 == index[at.0],
        differing(cases, index, others, n)[q].0 == index[at.1],
    decreases n,
{
    let before = differing(cases, index, others, (n - 1) as nat);
    if q < before.len() {
        lemma_differing_order(cases, index, others, (n - 1) as nat, p, q)
    } else {
        (lemma_differing_from(cases, index, others, (n - 1) as nat, p), n - 1)
    }
}

} // verus!
