//! Comparison of saved runs.

use crate::harness::model::{
    category_label, CaseOutcome, OutcomeCategory, OutcomeStats, QueryOutcome, RunSummary,
    LABEL_WIDTH,
};
use crate::harness::render::{
    append_count, append_left, append_right, count_text, human_count, left_aligned, outcome_line,
    outcome_text, right_aligned, ELAPSED_WIDTH,
};
use crate::order::{
    comes_before, lemma_before_irreflexive, lemma_text_total, lemma_text_transitive, text_before,
};
use crate::text::same_text;
use vstd::prelude::*;

verus! {

/// The maximum number of entries printed for any one difference section.
pub const MAX_PRINTED_CASES_PER_SECTION: usize = 20;

/// The details say the same.
pub open spec fn same_detail(a: Option<String>, b: Option<String>) -> bool {
    match (a, b) {
        (Some(a), Some(b)) => a@ == b@,
        (None, None) => true,
        _ => false,
    }
}

/// The query outcomes agree in everything but the elapsed time.
pub open spec fn same_query(a: QueryOutcome, b: QueryOutcome) -> bool {
    &&& a.query_index == b.query_index
    &&& a.category == b.category
    &&& a.expected == b.expected
    &&& a.actual == b.actual
}

/// The outcomes represent the same semantic result.
pub open spec fn same_outcome(a: CaseOutcome, b: CaseOutcome) -> bool {
    &&& a.category == b.category
    &&& same_detail(a.detail, b.detail)
    &&& a.queries@.len() == b.queries@.len()
    &&& forall|i: int|
        0 <= i < a.queries@.len() ==> same_query(#[trigger] a.queries@[i], b.queries@[i])
}

/// Returns whether the details say the same.
fn details_match(a: &Option<String>, b: &Option<String>) -> (answer: bool)
    ensures
        answer == same_detail(*a, *b),
{
    match (a, b) {
        (Some(a), Some(b)) => same_text(a.as_str(), b.as_str()),
        (None, None) => true,
        _ => false,
    }
}

/// Returns whether two saved outcomes represent the same semantic result.
pub fn outcomes_match(left: &CaseOutcome, right: &CaseOutcome) -> (answer: bool)
    ensures
        answer == same_outcome(*left, *right),
{
    if left.category != right.category || !details_match(&left.detail, &right.detail)
        || left.queries.len() != right.queries.len() {
        return false;
    }
    let mut i: usize = 0;
    while i < left.queries.len()
        invariant
            0 <= i <= left.queries@.len(),
            left.queries@.len() == right.queries@.len(),
            forall|j: int|
                0 <= j < i ==> same_query(#[trigger] left.queries@[j], right.queries@[j]),
        decreases left.queries@.len() - i,
    {
        let a = left.queries[i];
        let b = right.queries[i];
        if a.query_index != b.query_index || a.category != b.category || a.expected != b.expected
            || a.actual != b.actual {
            proof {
                assert(!same_query(left.queries@[i as int], right.queries@[i as int]));
            }
            return false;
        }
        i += 1;
    }
    true
}

/// The comparison key of a case.
pub open spec fn key_of(cases: Seq<CaseOutcome>, i: int) -> Seq<char> {
    cases[i].case.key@
}

/// The last of the first `n` cases with this key.
pub open spec fn last_with(cases: Seq<CaseOutcome>, key: Seq<char>, n: nat) -> Option<int>
    decreases n,
{
    if n == 0 {
        None
    } else if key_of(cases, n - 1) == key {
        Some(n - 1)
    } else {
        last_with(cases, key, (n - 1) as nat)
    }
}

/// The saved case with this key; of several the last.
pub open spec fn saved(cases: Seq<CaseOutcome>, key: Seq<char>) -> Option<int> {
    last_with(cases, key, cases.len())
}

proof fn lemma_last_with(cases: Seq<CaseOutcome>, key: Seq<char>, n: nat)
    requires
        n <= cases.len(),
    ensures
        match last_with(cases, key, n) {
            Some(k) => 0 <= k < n && key_of(cases, k) == key && forall|j: int|
                k < j < n ==> #[trigger] key_of(cases, j) != key,
            None => forall|j: int| 0 <= j < n ==> #[trigger] key_of(cases, j) != key,
        },
    decreases n,
{
    if n > 0 {
        lemma_last_with(cases, key, (n - 1) as nat);
    }
}

/// Finds the saved case with this key; of several the last.
pub fn find_saved(cases: &Vec<CaseOutcome>, key: &str) -> (found: Option<usize>)
    ensures
        match found {
            Some(k) => k < cases@.len() && saved(cases@, key@) == Some(k as int),
            None => saved(cases@, key@) is None,
        },
{
    let mut n: usize = cases.len();
    while n > 0
        invariant
            n <= cases@.len(),
            saved(cases@, key@) == last_with(cases@, key@, n as nat),
        decreases n,
    {
        if same_text(cases[n - 1].case.key.as_str(), key) {
            return Some(n - 1);
        }
        n -= 1;
    }
    None
}

/// An index with one more case: in the place of a case with the same key, or between the keys before
/// and after its own.
pub open spec fn placed(cases: Seq<CaseOutcome>, index: Seq<int>, k: int, n: nat) -> Seq<int>
    decreases n,
{
    if n == 0 {
        index.insert(0, k)
    } else if key_of(cases, index[n - 1]) == key_of(cases, k) {
        index.update(n - 1, k)
    } else if text_before(key_of(cases, k), key_of(cases, index[n - 1])) {
        placed(cases, index, k, (n - 1) as nat)
    } else {
        index.insert(n as int, k)
    }
}

/// The first `n` cases in the order of their keys, each key once with its last case.
pub open spec fn indexed(cases: Seq<CaseOutcome>, n: nat) -> Seq<int>
    decreases n,
{
    if n == 0 {
        Seq::empty()
    } else {
        let before = indexed(cases, (n - 1) as nat);
        placed(cases, before, n - 1, before.len())
    }
}

/// The keys of an index ascend.
pub open spec fn ascending(cases: Seq<CaseOutcome>, index: Seq<int>) -> bool {
    forall|i: int, j: int|
        #![trigger index[i], index[j]]
        0 <= i < j < index.len() ==> text_before(
            key_of(cases, index[i]),
            key_of(cases, index[j]),
        )
}

/// An index of the first `n` cases: ascending keys, each of the last case with its key, and every
/// key.
pub open spec fn is_index(cases: Seq<CaseOutcome>, index: Seq<int>, n: nat) -> bool {
    &&& ascending(cases, index)
    &&& forall|i: int|
        0 <= i < index.len() ==> 0 <= #[trigger] index[i] < n && last_with(
            cases,
            key_of(cases, index[i]),
            n,
        ) == Some(index[i])
    &&& forall|k: int|
        0 <= k < n ==> exists|i: int|
            0 <= i < index.len() && key_of(cases, #[trigger] index[i]) == #[trigger] key_of(
                cases,
                k,
            )
}

proof fn lemma_placed(cases: Seq<CaseOutcome>, index: Seq<int>, k: int, n: nat)
    requires
        is_index(cases, index, k as nat),
        0 <= k < cases.len(),
        n <= index.len(),
        forall|i: int|
            n <= i < index.len() ==> text_before(
                key_of(cases, k),
                key_of(cases, #[trigger] index[i]),
            ),
    ensures
        is_index(cases, placed(cases, index, k, n), (k + 1) as nat),
    decreases n,
{
    let next = placed(cases, index, k, n);
    let key = key_of(cases, k);
    if n > 0 && key_of(cases, index[n - 1]) != key && text_before(
        key,
        key_of(cases, index[n - 1]),
    ) {
        lemma_placed(cases, index, k, (n - 1) as nat);
    } else if n > 0 && key_of(cases, index[n - 1]) == key {
        lemma_replaced(cases, index, k, n - 1);
    } else {
        if n > 0 {
            lemma_text_total(key, key_of(cases, index[n - 1]));
        }
        lemma_added(cases, index, k, n as int);
    }
}

proof fn lemma_replaced(cases: Seq<CaseOutcome>, index: Seq<int>, k: int, at: int)
    requires
        is_index(cases, index, k as nat),
        0 <= k < cases.len(),
        0 <= at < index.len(),
        key_of(cases, index[at]) == key_of(cases, k),
    ensures
        is_index(cases, index.update(at, k), (k + 1) as nat),
{
    let next = index.update(at, k);
    let key = key_of(cases, k);
    assert forall|i: int, j: int|
        #![trigger next[i], next[j]]
        0 <= i < j < next.len() implies text_before(
        key_of(cases, next[i]),
        key_of(cases, next[j]),
    ) by {
        assert(text_before(key_of(cases, index[i]), key_of(cases, index[j])));
    }
    assert forall|i: int| 0 <= i < next.len() implies 0 <= #[trigger] next[i] < k + 1 && last_with(
        cases,
        key_of(cases, next[i]),
        (k + 1) as nat,
    ) == Some(next[i]) by {
        if i != at {
            assert(next[i] == index[i]);
            lemma_keys_differ(cases, index, i, at);
        }
    }
    assert forall|j: int| 0 <= j < k + 1 implies exists|i: int|
        0 <= i < next.len() && key_of(cases, #[trigger] next[i]) == #[trigger] key_of(cases, j) by {
        if j == k {
            assert(key_of(cases, next[at]) == key);
        } else {
            let i = choose|i: int|
                0 <= i < index.len() && key_of(cases, #[trigger] index[i]) == key_of(cases, j);
            assert(key_of(cases, next[i]) == key_of(cases, j));
        }
    }
}

proof fn lemma_keys_differ(cases: Seq<CaseOutcome>, index: Seq<int>, i: int, j: int)
    requires
        ascending(cases, index),
        0 <= i < index.len(),
        0 <= j < index.len(),
        i != j,
    ensures
        key_of(cases, index[i]) != key_of(cases, index[j]),
{
    let a = key_of(cases, index[i]);
    lemma_before_irreflexive(a, 0);
    if i < j {
        assert(text_before(key_of(cases, index[i]), key_of(cases, index[j])));
    } else {
        assert(text_before(key_of(cases, index[j]), key_of(cases, index[i])));
    }
}

proof fn lemma_added(cases: Seq<CaseOutcome>, index: Seq<int>, k: int, at: int)
    requires
        is_index(cases, index, k as nat),
        0 <= k < cases.len(),
        0 <= at <= index.len(),
        at > 0 ==> text_before(key_of(cases, index[at - 1]), key_of(cases, k)),
        forall|i: int|
            at <= i < index.len() ==> text_before(
                key_of(cases, k),
                key_of(cases, #[trigger] index[i]),
            ),
    ensures
        is_index(cases, index.insert(at, k), (k + 1) as nat),
{
    let next = index.insert(at, k);
    let key = key_of(cases, k);
    assert forall|i: int| 0 <= i < at implies text_before(
        key_of(cases, #[trigger] index[i]),
        key,
    ) by {
        if i < at - 1 {
            assert(text_before(key_of(cases, index[i]), key_of(cases, index[at - 1])));
            lemma_text_transitive(key_of(cases, index[i]), key_of(cases, index[at - 1]), key);
        }
    }
    assert forall|i: int, j: int|
        #![trigger next[i], next[j]]
        0 <= i < j < next.len() implies text_before(
        key_of(cases, next[i]),
        key_of(cases, next[j]),
    ) by {
        let p = if i < at {
            i
        } else {
            i - 1
        };
        let q = if j < at {
            j
        } else {
            j - 1
        };
        if i == at {
            assert(next[j] == index[q]);
        } else if j == at {
            assert(next[i] == index[p]);
        } else {
            assert(next[i] == index[p] && next[j] == index[q]);
            assert(text_before(key_of(cases, index[p]), key_of(cases, index[q])));
        }
    }
    lemma_before_irreflexive(key, 0);
    assert forall|i: int| 0 <= i < next.len() implies 0 <= #[trigger] next[i] < k + 1 && last_with(
        cases,
        key_of(cases, next[i]),
        (k + 1) as nat,
    ) == Some(next[i]) by {
        if i != at {
            let p = if i < at {
                i
            } else {
                i - 1
            };
            assert(next[i] == index[p]);
        }
    }
    assert forall|j: int| 0 <= j < k + 1 implies exists|i: int|
        0 <= i < next.len() && key_of(cases, #[trigger] next[i]) == #[trigger] key_of(cases, j) by {
        if j == k {
            assert(key_of(cases, next[at]) == key);
        } else {
            let i = choose|i: int|
                0 <= i < index.len() && key_of(cases, #[trigger] index[i]) == key_of(cases, j);
            let q = if i < at {
                i
            } else {
                i + 1
            };
            assert(next[q] == index[i]);
            assert(key_of(cases, next[q]) == key_of(cases, j));
        }
    }
}

/// Indexing lists every key once, in order, with its last case.
pub proof fn lemma_indexed(cases: Seq<CaseOutcome>, n: nat)
    requires
        n <= cases.len(),
    ensures
        is_index(cases, indexed(cases, n), n),
    decreases n,
{
    if n > 0 {
        lemma_indexed(cases, (n - 1) as nat);
        let before = indexed(cases, (n - 1) as nat);
        lemma_placed(cases, before, n - 1, before.len());
    }
}

/// Positions as mathematical values.
pub open spec fn positions(index: Seq<usize>) -> Seq<int> {
    index.map_values(|p: usize| p as int)
}

/// Indexes saved outcomes by their stable comparison key.
pub fn index_cases(cases: &Vec<CaseOutcome>) -> (index: Vec<usize>)
    ensures
        positions(index@) == indexed(cases@, cases@.len()),
        is_index(cases@, positions(index@), cases@.len()),
{
    let mut index: Vec<usize> = Vec::new();
    proof {
        assert(positions(index@) =~= Seq::<int>::empty());
    }
    let mut k: usize = 0;
    while k < cases.len()
        invariant
            0 <= k <= cases@.len(),
            positions(index@) == indexed(cases@, k as nat),
            forall|i: int| 0 <= i < index@.len() ==> (#[trigger] index@[i]) < cases@.len(),
        decreases cases@.len() - k,
    {
        let ghost before = positions(index@);
        let ghost goal = placed(cases@, before, k as int, before.len());
        let mut n: usize = index.len();
        let mut same = false;
        while n > 0
            invariant_except_break
                !same,
            invariant
                n <= index@.len(),
                k < cases@.len(),
                before == positions(index@),
                goal == placed(cases@, before, k as int, n as nat),
                forall|i: int| 0 <= i < index@.len() ==> (#[trigger] index@[i]) < cases@.len(),
            ensures
                n <= index@.len(),
                same ==> n > 0 && goal == before.update(n - 1, k as int),
                !same ==> goal == before.insert(n as int, k as int),
            decreases n,
        {
            proof {
                assert(before[n - 1] == index@[n - 1]);
            }
            let key = cases[k].case.key.as_str();
            let other = cases[index[n - 1]].case.key.as_str();
            if same_text(other, key) {
                same = true;
                break;
            }
            if !comes_before(key, other) {
                break;
            }
            n -= 1;
        }
        if same {
            index.set(n - 1, k);
            proof {
                assert(positions(index@) =~= goal);
            }
        } else {
            index.insert(n, k);
            proof {
                assert(positions(index@) =~= goal);
            }
        }
        k += 1;
    }
    proof {
        lemma_indexed(cases@, cases@.len());
    }
    index
}

/// The indexed cases, among the first `n`, whose key the other run lacks.
pub open spec fn unmatched(
    cases: Seq<CaseOutcome>,
    index: Seq<int>,
    others: Seq<CaseOutcome>,
    n: nat,
) -> Seq<int>
    decreases n,
{
    if n == 0 {
        Seq::empty()
    } else {
        let before = unmatched(cases, index, others, (n - 1) as nat);
        if saved(others, key_of(cases, index[n - 1])) is None {
            before.push(index[n - 1])
        } else {
            before
        }
    }
}

/// The pairs, among the first `n` indexed cases, that share a key and differ in their outcome.
pub open spec fn differing(
    cases: Seq<CaseOutcome>,
    index: Seq<int>,
    others: Seq<CaseOutcome>,
    n: nat,
) -> Seq<(int, int)>
    decreases n,
{
    if n == 0 {
        Seq::empty()
    } else {
        let before = differing(cases, index, others, (n - 1) as nat);
        match saved(others, key_of(cases, index[n - 1])) {
            Some(k) => if same_outcome(cases[index[n - 1]], others[k]) {
                before
            } else {
                before.push((index[n - 1], k))
            },
            None => before,
        }
    }
}

/// How many of the first `n` indexed cases have the same outcome in the other run.
pub open spec fn agreeing(
    cases: Seq<CaseOutcome>,
    index: Seq<int>,
    others: Seq<CaseOutcome>,
    n: nat,
) -> nat
    decreases n,
{
    if n == 0 {
        0
    } else {
        let before = agreeing(cases, index, others, (n - 1) as nat);
        match saved(others, key_of(cases, index[n - 1])) {
            Some(k) => if same_outcome(cases[index[n - 1]], others[k]) {
                before + 1
            } else {
                before
            },
            None => before,
        }
    }
}

/// One difference where the same case key produced different outcome data.
pub struct ChangedCase<'a> {
    /// The manifest-relative key shared by both saved runs.
    pub key: &'a str,
    /// The left-hand saved case outcome.
    pub left: &'a CaseOutcome,
    /// The right-hand saved case outcome.
    pub right: &'a CaseOutcome,
}

/// The full comparison result between two saved run summaries.
pub struct RunComparison<'a> {
    /// Cases present only in the left-hand summary.
    pub only_left: Vec<&'a CaseOutcome>,
    /// Cases present only in the right-hand summary.
    pub only_right: Vec<&'a CaseOutcome>,
    /// Shared cases whose semantic outcome changed.
    pub changed: Vec<ChangedCase<'a>>,
    /// The number of shared cases whose semantic outcome stayed identical.
    pub identical: usize,
}

/// The references are to the cases at these positions.
pub open spec fn refers(list: Seq<&CaseOutcome>, cases: Seq<CaseOutcome>, at: Seq<int>) -> bool {
    &&& list.len() == at.len()
    &&& forall|i: int| 0 <= i < list.len() ==> *(#[trigger] list[i]) == cases[at[i]]
}

/// The changes are those between the cases at these positions.
pub open spec fn refers_pairs(
    list: Seq<ChangedCase>,
    left: Seq<CaseOutcome>,
    right: Seq<CaseOutcome>,
    at: Seq<(int, int)>,
) -> bool {
    &&& list.len() == at.len()
    &&& forall|i: int|
        0 <= i < list.len() ==> {
            &&& *(#[trigger] list[i]).left == left[at[i].0]
            &&& *list[i].right == right[at[i].1]
            &&& list[i].key@ == key_of(left, at[i].0)
        }
}

/// Lists the cases of one run whose key another run lacks, in the order of their keys.
fn cases_without<'a>(cases: &'a Vec<CaseOutcome>, index: &Vec<usize>, others: &Vec<CaseOutcome>) -> (
list: Vec<&'a CaseOutcome>)
    requires
        is_index(cases@, positions(index@), cases@.len()),
    ensures
        refers(
            list@,
            cases@,
            unmatched(cases@, positions(index@), others@, index@.len()),
        ),
{
    let ghost at = positions(index@);
    let mut list: Vec<&'a CaseOutcome> = Vec::new();
    let mut i: usize = 0;
    while i < index.len()
        invariant
            0 <= i <= index@.len(),
            at == positions(index@),
            is_index(cases@, at, cases@.len()),
            refers(list@, cases@, unmatched(cases@, at, others@, i as nat)),
        decreases index@.len() - i,
    {
        proof {
            assert(at[i as int] == index@[i as int]);
        }
        let case = &cases[index[i]];
        if find_saved(others, case.case.key.as_str()).is_none() {
            list.push(case);
        }
        i += 1;
    }
    list
}

impl<'a> RunComparison<'a> {
    /// The comparison is that of these two lists of cases.
    pub open spec fn compares(&self, left: Seq<CaseOutcome>, right: Seq<CaseOutcome>) -> bool {
        let l = indexed(left, left.len());
        let r = indexed(right, right.len());
        &&& refers(self.only_left@, left, unmatched(left, l, right, l.len()))
        &&& refers(self.only_right@, right, unmatched(right, r, left, r.len()))
        &&& refers_pairs(self.changed@, left, right, differing(left, l, right, l.len()))
        &&& self.identical == agreeing(left, l, right, l.len())
    }

    /// Builds a case-by-case comparison from two saved run summaries.
    pub fn build(left: &'a RunSummary, right: &'a RunSummary) -> (comparison: RunComparison<'a>)
        ensures
            comparison.compares(left.cases@, right.cases@),
    {
        let left_index = index_cases(&left.cases);
        let right_index = index_cases(&right.cases);
        let only_left = cases_without(&left.cases, &left_index, &right.cases);
        let only_right = cases_without(&right.cases, &right_index, &left.cases);
        let ghost l = left.cases@;
        let ghost r = right.cases@;
        let ghost at = positions(left_index@);
        let mut changed: Vec<ChangedCase<'a>> = Vec::new();
        let mut identical: usize = 0;
        let mut i: usize = 0;
        while i < left_index.len()
            invariant
                0 <= i <= left_index@.len(),
                l == left.cases@,
                r == right.cases@,
                at == positions(left_index@),
                is_index(l, at, l.len()),
                identical <= i,
                identical == agreeing(l, at, r, i as nat),
                refers_pairs(changed@, l, r, differing(l, at, r, i as nat)),
            decreases left_index@.len() - i,
        {
            proof {
                assert(at[i as int] == left_index@[i as int]);
            }
            let case = &left.cases[left_index[i]];
            if let Some(k) = find_saved(&right.cases, case.case.key.as_str()) {
                let other = &right.cases[k];
                if outcomes_match(case, other) {
                    identical += 1;
                } else {
                    changed.push(
                        ChangedCase { key: case.case.key.as_str(), left: case, right: other },
                    );
                }
            }
            i += 1;
        }
        RunComparison { only_left, only_right, changed, identical }
    }

    /// Returns `true` when the saved runs have the same cases and semantic outcomes.
    pub fn is_match(&self) -> (answer: bool)
        ensures
            answer == (self.only_left@.len() == 0 && self.only_right@.len() == 0
                && self.changed@.len() == 0),
    {
        self.only_left.len() == 0 && self.only_right.len() == 0 && self.changed.len() == 0
    }
}

/// The runs have the same keys with the same outcomes.
pub open spec fn same_runs(left: Seq<CaseOutcome>, right: Seq<CaseOutcome>) -> bool {
    forall|key: Seq<char>|
        match (#[trigger] saved(left, key), saved(right, key)) {
            (Some(i), Some(j)) => same_outcome(left[i], right[j]),
            (None, None) => true,
            _ => false,
        }
}

proof fn lemma_none_unmatched(
    cases: Seq<CaseOutcome>,
    index: Seq<int>,
    others: Seq<CaseOutcome>,
    n: nat,
)
    requires
        n <= index.len(),
    ensures
        unmatched(cases, index, others, n).len() == 0 <==> forall|i: int|
            0 <= i < n ==> saved(others, key_of(cases, #[trigger] index[i])) is Some,
    decreases n,
{
    if n > 0 {
        lemma_none_unmatched(cases, index, others, (n - 1) as nat);
    }
}

proof fn lemma_none_differing(
    cases: Seq<CaseOutcome>,
    index: Seq<int>,
    others: Seq<CaseOutcome>,
    n: nat,
)
    requires
        n <= index.len(),
    ensures
        differing(cases, index, others, n).len() == 0 <==> forall|i: int|
            0 <= i < n ==> (saved(others, key_of(cases, #[trigger] index[i])) matches Some(k)
                ==> same_outcome(cases[index[i]], others[k])),
    decreases n,
{
    if n > 0 {
        lemma_none_differing(cases, index, others, (n - 1) as nat);
    }
}

proof fn lemma_key_indexed(cases: Seq<CaseOutcome>, key: Seq<char>) -> (i: int)
    requires
        saved(cases, key) is Some,
    ensures
        0 <= i < indexed(cases, cases.len()).len(),
        key_of(cases, indexed(cases, cases.len())[i]) == key,
        saved(cases, key) == Some(indexed(cases, cases.len())[i]),
{
    let index = indexed(cases, cases.len());
    lemma_indexed(cases, cases.len());
    lemma_last_with(cases, key, cases.len());
    let k = saved(cases, key)->0;
    assert(key_of(cases, k) == key);
    choose|i: int| 0 <= i < index.len() && key_of(cases, #[trigger] index[i]) == key_of(cases, k)
}

/// A comparison matches exactly when both runs have the same keys with the same outcomes.
pub proof fn lemma_match(comparison: RunComparison, left: Seq<CaseOutcome>, right: Seq<CaseOutcome>)
    requires
        comparison.compares(left, right),
    ensures
        (comparison.only_left@.len() == 0 && comparison.only_right@.len() == 0
            && comparison.changed@.len() == 0) <==> same_runs(left, right),
{
    let l = indexed(left, left.len());
    let r = indexed(right, right.len());
    lemma_indexed(left, left.len());
    lemma_indexed(right, right.len());
    lemma_none_unmatched(left, l, right, l.len());
    lemma_none_unmatched(right, r, left, r.len());
    lemma_none_differing(left, l, right, l.len());
    let matches = comparison.only_left@.len() == 0 && comparison.only_right@.len() == 0
        && comparison.changed@.len() == 0;
    if matches {
        assert forall|key: Seq<char>|
            match (#[trigger] saved(left, key), saved(right, key)) {
                (Some(i), Some(j)) => same_outcome(left[i], right[j]),
                (None, None) => true,
                _ => false,
            } by {
            if saved(left, key) is Some {
                let i = lemma_key_indexed(left, key);
                assert(saved(right, key_of(left, l[i])) is Some);
            }
            if saved(right, key) is Some {
                let i = lemma_key_indexed(right, key);
                assert(saved(left, key_of(right, r[i])) is Some);
            }
        }
    }
    if same_runs(left, right) {
        assert forall|i: int| 0 <= i < l.len() implies saved(
            right,
            key_of(left, #[trigger] l[i]),
        ) is Some by {
            assert(saved(left, key_of(left, l[i])) == Some(l[i]));
        }
        assert forall|i: int| 0 <= i < r.len() implies saved(
            left,
            key_of(right, #[trigger] r[i]),
        ) is Some by {
            assert(saved(right, key_of(right, r[i])) == Some(r[i]));
            assert(saved(left, key_of(right, r[i])) is Some);
        }
        assert forall|i: int| 0 <= i < l.len() implies (saved(
            right,
            key_of(left, #[trigger] l[i]),
        ) matches Some(k) ==> same_outcome(left[l[i]], right[k])) by {
            assert(saved(left, key_of(left, l[i])) == Some(l[i]));
        }
    }
}

/// A run always matches itself.
pub proof fn lemma_match_self(cases: Seq<CaseOutcome>)
    ensures
        same_runs(cases, cases),
{
}

/// Whether two runs match does not depend on their order.
pub proof fn lemma_match_symmetric(left: Seq<CaseOutcome>, right: Seq<CaseOutcome>)
    requires
        same_runs(left, right),
    ensures
        same_runs(right, left),
{
    assert forall|key: Seq<char>|
        match (#[trigger] saved(right, key), saved(left, key)) {
            (Some(i), Some(j)) => same_outcome(right[i], left[j]),
            (None, None) => true,
            _ => false,
        } by {
        let found = saved(left, key);
        match (saved(left, key), saved(right, key)) {
            (Some(j), Some(i)) => {
                assert(same_outcome(left[j], right[i]));
                assert forall|q: int| 0 <= q < right[i].queries@.len() implies same_query(
                    #[trigger] right[i].queries@[q],
                    left[j].queries@[q],
                ) by {
                    assert(same_query(left[j].queries@[q], right[i].queries@[q]));
                }
            },
            _ => {},
        }
    }
}

/// The keys, among those of the first `n` indexed cases, that satisfy `pred`.
spec fn keys_where(
    cases: Seq<CaseOutcome>,
    index: Seq<int>,
    pred: spec_fn(Seq<char>) -> bool,
    n: nat,
) -> Set<Seq<char>>
    decreases n,
{
    if n == 0 {
        Set::empty()
    } else {
        let before = keys_where(cases, index, pred, (n - 1) as nat);
        let key = key_of(cases, index[n - 1]);
        if pred(key) {
            before.insert(key)
        } else {
            before
        }
    }
}

/// How many of the first `n` indexed cases have a key that satisfies `pred`.
spec fn count_where(
    cases: Seq<CaseOutcome>,
    index: Seq<int>,
    pred: spec_fn(Seq<char>) -> bool,
    n: nat,
) -> nat
    decreases n,
{
    if n == 0 {
        0
    } else {
        count_where(cases, index, pred, (n - 1) as nat) + if pred(key_of(cases, index[n - 1])) {
            1nat
        } else {
            0
        }
    }
}

proof fn lemma_keys_where(
    cases: Seq<CaseOutcome>,
    index: Seq<int>,
    pred: spec_fn(Seq<char>) -> bool,
    n: nat,
)
    requires
        ascending(cases, index),
        n <= index.len(),
    ensures
        keys_where(cases, index, pred, n).finite(),
        keys_where(cases, index, pred, n).len() == count_where(cases, index, pred, n),
        forall|key: Seq<char>| #[trigger]
            keys_where(cases, index, pred, n).contains(key) <==> pred(key) && exists|i: int|
                0 <= i < n && key_of(cases, #[trigger] index[i]) == key,
    decreases n,
{
    if n > 0 {
        lemma_keys_where(cases, index, pred, (n - 1) as nat);
        let before = keys_where(cases, index, pred, (n - 1) as nat);
        let last = key_of(cases, index[n - 1]);
        assert(!before.contains(last)) by {
            if before.contains(last) {
                let i = choose|i: int|
                    0 <= i < n - 1 && key_of(cases, #[trigger] index[i]) == last;
                lemma_keys_differ(cases, index, i, n - 1);
            }
        }
        assert forall|key: Seq<char>| #[trigger]
            keys_where(cases, index, pred, n).contains(key) <==> pred(key) && exists|i: int|
                0 <= i < n && key_of(cases, #[trigger] index[i]) == key by {
            if pred(key) && key == last {
                assert(key_of(cases, index[n - 1]) == key);
            }
            if before.contains(key) {
                let i = choose|i: int|
                    0 <= i < n - 1 && key_of(cases, #[trigger] index[i]) == key;
                assert(key_of(cases, index[i]) == key);
            }
        }
    }
}

/// Where only shared keys count, both runs count the same.
proof fn lemma_shared_count(
    left: Seq<CaseOutcome>,
    right: Seq<CaseOutcome>,
    pred: spec_fn(Seq<char>) -> bool,
)
    requires
        forall|key: Seq<char>| #[trigger]
            pred(key) ==> saved(left, key) is Some && saved(right, key) is Some,
    ensures
        ({
            let l = indexed(left, left.len());
            let r = indexed(right, right.len());
            count_where(left, l, pred, l.len()) == count_where(right, r, pred, r.len())
        }),
{
    let l = indexed(left, left.len());
    let r = indexed(right, right.len());
    lemma_indexed(left, left.len());
    lemma_indexed(right, right.len());
    lemma_keys_where(left, l, pred, l.len());
    lemma_keys_where(right, r, pred, r.len());
    let a = keys_where(left, l, pred, l.len());
    let b = keys_where(right, r, pred, r.len());
    assert forall|key: Seq<char>| #[trigger] a.contains(key) == b.contains(key) by {
        if pred(key) {
            let i = lemma_key_indexed(left, key);
            assert(key_of(left, l[i]) == key);
            let j = lemma_key_indexed(right, key);
            assert(key_of(right, r[j]) == key);
        }
    }
    assert(a =~= b);
}

/// The key is in both runs.
spec fn shared(left: Seq<CaseOutcome>, right: Seq<CaseOutcome>) -> spec_fn(Seq<char>) -> bool {
    |key: Seq<char>| saved(left, key) is Some && saved(right, key) is Some
}

/// The key is in both runs, with the same outcome.
spec fn settled(left: Seq<CaseOutcome>, right: Seq<CaseOutcome>) -> spec_fn(Seq<char>) -> bool {
    |key: Seq<char>|
        saved(left, key) is Some && saved(right, key) is Some && same_outcome(
            left[saved(left, key)->0],
            right[saved(right, key)->0],
        )
}

proof fn lemma_outcome_symmetric(a: CaseOutcome, b: CaseOutcome)
    ensures
        same_outcome(a, b) == same_outcome(b, a),
{
    if same_outcome(a, b) {
        assert forall|q: int| 0 <= q < b.queries@.len() implies same_query(
            #[trigger] b.queries@[q],
            a.queries@[q],
        ) by {
            assert(same_query(a.queries@[q], b.queries@[q]));
        }
    }
    if same_outcome(b, a) {
        assert forall|q: int| 0 <= q < a.queries@.len() implies same_query(
            #[trigger] a.queries@[q],
            b.queries@[q],
        ) by {
            assert(same_query(b.queries@[q], a.queries@[q]));
        }
    }
}

/// The parts of a comparison as counts of keys.
proof fn lemma_counts(
    left: Seq<CaseOutcome>,
    index: Seq<int>,
    right: Seq<CaseOutcome>,
    n: nat,
)
    requires
        n <= index.len(),
        forall|i: int|
            0 <= i < index.len() ==> saved(left, key_of(left, #[trigger] index[i])) == Some(
                index[i],
            ),
    ensures
        agreeing(left, index, right, n) == count_where(left, index, settled(left, right), n),
        agreeing(left, index, right, n) + differing(left, index, right, n).len() == count_where(
            left,
            index,
            shared(left, right),
            n,
        ),
        agreeing(left, index, right, n) + differing(left, index, right, n).len() + unmatched(
            left,
            index,
            right,
            n,
        ).len() == n,
    decreases n,
{
    if n > 0 {
        lemma_counts(left, index, right, (n - 1) as nat);
        assert(saved(left, key_of(left, index[n - 1])) == Some(index[n - 1]));
    }
}

/// No two cases have the same key.
pub open spec fn keys_unique(cases: Seq<CaseOutcome>) -> bool {
    forall|i: int, j: int|
        0 <= i < j < cases.len() ==> #[trigger] key_of(cases, i) != #[trigger] key_of(cases, j)
}

proof fn lemma_placed_len(cases: Seq<CaseOutcome>, index: Seq<int>, k: int, n: nat)
    requires
        n <= index.len(),
        forall|i: int|
            0 <= i < index.len() ==> key_of(cases, #[trigger] index[i]) != key_of(cases, k),
    ensures
        placed(cases, index, k, n).len() == index.len() + 1,
    decreases n,
{
    if n > 0 {
        assert(key_of(cases, index[n - 1]) != key_of(cases, k));
        lemma_placed_len(cases, index, k, (n - 1) as nat);
    }
}

proof fn lemma_indexed_len(cases: Seq<CaseOutcome>, n: nat)
    requires
        keys_unique(cases),
        n <= cases.len(),
    ensures
        indexed(cases, n).len() == n,
    decreases n,
{
    if n > 0 {
        let before = indexed(cases, (n - 1) as nat);
        lemma_indexed_len(cases, (n - 1) as nat);
        lemma_indexed(cases, (n - 1) as nat);
        assert forall|i: int| 0 <= i < before.len() implies key_of(cases, #[trigger] before[i])
            != key_of(cases, n - 1) by {
            assert(0 <= before[i] < n - 1);
        }
        lemma_placed_len(cases, before, n - 1, before.len());
    }
}

/// Every case of either run is counted once: as identical, as changed, or as missing in the other
/// run.
pub proof fn lemma_cases_accounted(
    comparison: RunComparison,
    left: Seq<CaseOutcome>,
    right: Seq<CaseOutcome>,
)
    requires
        comparison.compares(left, right),
        keys_unique(left),
        keys_unique(right),
    ensures
        comparison.identical + comparison.changed@.len() + comparison.only_left@.len()
            == left.len(),
        comparison.identical + comparison.changed@.len() + comparison.only_right@.len()
            == right.len(),
{
    let l = indexed(left, left.len());
    let r = indexed(right, right.len());
    lemma_indexed(left, left.len());
    lemma_indexed(right, right.len());
    lemma_indexed_len(left, left.len());
    lemma_indexed_len(right, right.len());
    lemma_counts(left, l, right, l.len());
    lemma_counts(right, r, left, r.len());
    lemma_shared_count(left, right, shared(left, right));
    assert(shared(right, left) =~= shared(left, right)) by {
        assert forall|key: Seq<char>| #[trigger] shared(right, left)(key) == shared(left, right)(
            key,
        ) by {}
    }
}

/// Comparing the other way round swaps the missing cases, and keeps the number of identical and of
/// changed ones.
pub proof fn lemma_mirrored(
    comparison: RunComparison,
    mirror: RunComparison,
    left: Seq<CaseOutcome>,
    right: Seq<CaseOutcome>,
)
    requires
        comparison.compares(left, right),
        mirror.compares(right, left),
    ensures
        mirror.only_left@.len() == comparison.only_right@.len(),
        forall|i: int|
            0 <= i < mirror.only_left@.len() ==> *(#[trigger] mirror.only_left@[i])
                == *comparison.only_right@[i],
        mirror.only_right@.len() == comparison.only_left@.len(),
        forall|i: int|
            0 <= i < mirror.only_right@.len() ==> *(#[trigger] mirror.only_right@[i])
                == *comparison.only_left@[i],
        mirror.identical == comparison.identical,
        mirror.changed@.len() == comparison.changed@.len(),
{
    let l = indexed(left, left.len());
    let r = indexed(right, right.len());
    lemma_indexed(left, left.len());
    lemma_indexed(right, right.len());
    lemma_counts(left, l, right, l.len());
    lemma_counts(right, r, left, r.len());
    lemma_shared_count(left, right, shared(left, right));
    lemma_shared_count(left, right, settled(left, right));
    assert forall|key: Seq<char>| #[trigger] settled(right, left)(key) == settled(left, right)(
        key,
    ) by {
        if saved(left, key) is Some && saved(right, key) is Some {
            lemma_outcome_symmetric(left[saved(left, key)->0], right[saved(right, key)->0]);
        }
    }
    assert(settled(right, left) =~= settled(left, right));
    assert forall|key: Seq<char>| #[trigger] shared(right, left)(key) == shared(left, right)(
        key,
    ) by {}
    assert(shared(right, left) =~= shared(left, right));
    assert forall|i: int| 0 <= i < mirror.only_left@.len() implies *(
    #[trigger] mirror.only_left@[i]) == *comparison.only_right@[i] by {
        assert(*comparison.only_right@[i] == right[unmatched(right, r, left, r.len())[i]]);
    }
    assert forall|i: int| 0 <= i < mirror.only_right@.len() implies *(
    #[trigger] mirror.only_right@[i]) == *comparison.only_left@[i] by {
        assert(*comparison.only_left@[i] == left[unmatched(left, l, right, l.len())[i]]);
    }
}

/// How many of the first `n` changes go from failing or not to failing or not.
pub open spec fn changes_between(changes: Seq<ChangedCase>, from: bool, to: bool, n: nat) -> nat
    decreases n,
{
    if n == 0 {
        0
    } else {
        let change = changes[n - 1];
        changes_between(changes, from, to, (n - 1) as nat) + if change.left.category.fails() == from
            && change.right.category.fails() == to {
            1nat
        } else {
            0
        }
    }
}

/// Classifies changed cases by whether the right-hand side improved or regressed: the number of
/// improvements, of regressions and of other changes.
pub fn classify_changes(changes: &[ChangedCase]) -> (counts: (usize, usize, usize))
    ensures
        counts.0 == changes_between(changes@, true, false, changes@.len()),
        counts.1 == changes_between(changes@, false, true, changes@.len()),
        counts.0 + counts.1 + counts.2 == changes@.len(),
{
    let mut improvements: usize = 0;
    let mut regressions: usize = 0;
    let mut lateral: usize = 0;
    let mut i: usize = 0;
    while i < changes.len()
        invariant
            0 <= i <= changes@.len(),
            improvements == changes_between(changes@, true, false, i as nat),
            regressions == changes_between(changes@, false, true, i as nat),
            improvements + regressions + lateral == i,
        decreases changes@.len() - i,
    {
        let before = changes[i].left.category.is_failure();
        let after = changes[i].right.category.is_failure();
        if before && !after {
            improvements += 1;
        } else if !before && after {
            regressions += 1;
        } else {
            lateral += 1;
        }
        i += 1;
    }
    (improvements, regressions, lateral)
}

/// Formats one case that is missing from the opposite saved run, given the text of its elapsed time.
pub fn format_missing_case(outcome: &CaseOutcome, elapsed: &str) -> (line: String)
    ensures
        line@ == outcome_text(
            left_aligned(category_label(outcome.category), LABEL_WIDTH as nat),
            elapsed@,
            outcome.case.key@,
            outcome.detail,
            None,
        ),
{
    let mut label = "".to_owned();
    append_left(&mut label, outcome.category.label(), LABEL_WIDTH);
    proof {
        reveal_strlit("");
        assert(label@ =~= left_aligned(category_label(outcome.category), LABEL_WIDTH as nat));
    }
    outcome_line(outcome, label.as_str(), elapsed, &None)
}

/// A category change without the arrow where both sides share one category.
pub open spec fn category_change(left: OutcomeCategory, right: OutcomeCategory) -> Seq<char> {
    let width = LABEL_WIDTH as nat;
    if left == right {
        left_aligned(category_label(left), width)
    } else {
        left_aligned(category_label(left), width) + " -> "@ + left_aligned(
            category_label(right),
            width,
        )
    }
}

/// Formats a category change, omitting the arrow when both sides share one category.
pub fn format_category_change(left: OutcomeCategory, right: OutcomeCategory) -> (text: String)
    ensures
        text@ == category_change(left, right),
{
    let mut text = "".to_owned();
    append_left(&mut text, left.label(), LABEL_WIDTH);
    proof {
        reveal_strlit("");
        assert(text@ =~= left_aligned(category_label(left), LABEL_WIDTH as nat));
    }
    if left != right {
        text.append(" -> ");
        append_left(&mut text, right.label(), LABEL_WIDTH);
    }
    text
}

/// An elapsed-time change without the arrow where both sides read the same.
pub open spec fn elapsed_change(left: Seq<char>, right: Seq<char>) -> Seq<char> {
    let width = ELAPSED_WIDTH as nat;
    if left == right {
        right_aligned(left, width)
    } else {
        right_aligned(left, width) + " -> "@ + right_aligned(right, width)
    }
}

/// Formats an elapsed-time change, omitting the arrow when both sides read the same.
pub fn format_elapsed_change(left: &str, right: &str) -> (text: String)
    ensures
        text@ == elapsed_change(left@, right@),
{
    let mut text = "".to_owned();
    append_right(&mut text, left, ELAPSED_WIDTH);
    proof {
        reveal_strlit("");
        assert(text@ =~= right_aligned(left@, ELAPSED_WIDTH as nat));
    }
    if !same_text(left, right) {
        text.append(" -> ");
        append_right(&mut text, right, ELAPSED_WIDTH);
    }
    text
}

/// A detail or a dash.
pub open spec fn detail_or_dash(detail: Option<String>) -> Seq<char> {
    match detail {
        Some(detail) => detail@,
        None => "-"@,
    }
}

/// A detail change suffix, empty where both sides say the same.
pub open spec fn detail_change(left: Option<String>, right: Option<String>) -> Seq<char> {
    if same_detail(left, right) {
        Seq::empty()
    } else {
        " :: "@ + detail_or_dash(left) + " -> "@ + detail_or_dash(right)
    }
}

/// Appends a detail or a dash.
fn append_detail_or_dash(text: &mut String, detail: &Option<String>)
    ensures
        final(text)@ == old(text)@ + detail_or_dash(*detail),
{
    match detail {
        Some(detail) => text.append(detail.as_str()),
        None => text.append("-"),
    }
}

/// Formats one optional detail change suffix, omitting separators when both sides say the same.
pub fn format_detail_change(left: &Option<String>, right: &Option<String>) -> (text: String)
    ensures
        text@ == detail_change(*left, *right),
{
    if details_match(left, right) {
        proof {
            reveal_strlit("");
            assert(""@ =~= Seq::<char>::empty());
        }
        return "".to_owned();
    }
    let mut text = " :: ".to_owned();
    append_detail_or_dash(&mut text, left);
    text.append(" -> ");
    append_detail_or_dash(&mut text, right);
    text
}

/// One changed case on one line.
pub open spec fn change_text(
    label: Seq<char>,
    elapsed: Seq<char>,
    key: Seq<char>,
    detail: Seq<char>,
) -> Seq<char> {
    "    "@ + label + " "@ + elapsed + " "@ + key + detail
}

/// Formats one changed case for terminal output, given the texts of both elapsed times.
pub fn format_changed_case(change: &ChangedCase, left_elapsed: &str, right_elapsed: &str) -> (line:
    String)
    ensures
        line@ == change_text(
            category_change(change.left.category, change.right.category),
            elapsed_change(left_elapsed@, right_elapsed@),
            change.key@,
            detail_change(change.left.detail, change.right.detail),
        ),
{
    let label = format_category_change(change.left.category, change.right.category);
    let elapsed = format_elapsed_change(left_elapsed, right_elapsed);
    let detail = format_detail_change(&change.left.detail, &change.right.detail);
    let mut line = "    ".to_owned();
    line.append(label.as_str());
    line.append(" ");
    line.append(elapsed.as_str());
    line.append(" ");
    line.append(change.key);
    line.append(detail.as_str());
    line
}

/// Formats the counts of a comparison.
pub fn counts_line(comparison: &RunComparison) -> (line: String)
    requires
        comparison.identical + comparison.changed@.len() <= usize::MAX,
    ensures
        line@ == " shared "@ + count_text(
            (comparison.identical + comparison.changed@.len()) as nat,
        ) + " | identical "@ + count_text(comparison.identical as nat) + " | changed "@ + count_text(
            comparison.changed@.len(),
        ) + " | only-left "@ + count_text(comparison.only_left@.len()) + " | only-right "@
            + count_text(comparison.only_right@.len()),
{
    let shared = comparison.identical + comparison.changed.len();
    let mut line = " shared ".to_owned();
    let count = human_count(shared as u64);
    line.append(count.as_str());
    append_count(&mut line, " | identical ", comparison.identical as u64);
    append_count(&mut line, " | changed ", comparison.changed.len() as u64);
    append_count(&mut line, " | only-left ", comparison.only_left.len() as u64);
    append_count(&mut line, " | only-right ", comparison.only_right.len() as u64);
    line
}

/// Formats the counts of changed cases.
pub fn changes_line(counts: (usize, usize, usize)) -> (line: String)
    ensures
        line@ == " improvement "@ + count_text(counts.0 as nat) + " | regression "@ + count_text(
            counts.1 as nat,
        ) + " | lateral "@ + count_text(counts.2 as nat),
{
    let mut line = " improvement ".to_owned();
    let count = human_count(counts.0 as u64);
    line.append(count.as_str());
    append_count(&mut line, " | regression ", counts.1 as u64);
    append_count(&mut line, " | lateral ", counts.2 as u64);
    line
}

/// Formats one per-run summary line, given the texts of its elapsed time and of its timeout.
pub fn run_header(label: &str, summary: &RunSummary, elapsed: &str, timeout: &str) -> (line: String)
    requires
        summary.stats.balanced(),
    ensures
        line@ == " "@ + left_aligned(label@, 6) + " total "@ + count_text(summary.cases@.len())
            + " | pass "@ + count_text(summary.stats.pass as nat) + " | no-oracle "@ + count_text(
            summary.stats.no_oracle as nat,
        ) + " | fail "@ + count_text(summary.stats.failures()) + " | elapsed "@ + elapsed@
            + " | jobs "@ + count_text(summary.jobs as nat) + " | timeout "@ + timeout@,
{
    let stats: OutcomeStats = summary.stats;
    let mut line = " ".to_owned();
    append_left(&mut line, label, 6);
    append_count(&mut line, " total ", summary.cases.len() as u64);
    append_count(&mut line, " | pass ", stats.pass as u64);
    append_count(&mut line, " | no-oracle ", stats.no_oracle as u64);
    append_count(&mut line, " | fail ", (stats.done - stats.pass - stats.no_oracle) as u64);
    line.append(" | elapsed ");
    line.append(elapsed);
    append_count(&mut line, " | jobs ", summary.jobs as u64);
    line.append(" | timeout ");
    line.append(timeout);
    line
}

/// Formats what follows the title of a section with this many entries.
pub fn section_header(entries: usize) -> (line: String)
    ensures
        line@ == " "@ + count_text(entries as nat) + if entries > MAX_PRINTED_CASES_PER_SECTION {
            " (showing up to 20)"@
        } else {
            Seq::empty()
        },
{
    let mut line = " ".to_owned();
    let count = human_count(entries as u64);
    line.append(count.as_str());
    if entries > MAX_PRINTED_CASES_PER_SECTION {
        line.append(" (showing up to 20)");
    } else {
        proof {
            assert(line@ + Seq::<char>::empty() =~= line@);
        }
    }
    line
}

/// Formats the line that stands for the entries of a section that are not printed, if any.
pub fn section_footer(entries: usize) -> (line: Option<String>)
    ensures
        line is Some <==> entries > MAX_PRINTED_CASES_PER_SECTION,
        line matches Some(line) ==> line@ == "    ... "@ + count_text(
            (entries - MAX_PRINTED_CASES_PER_SECTION) as nat,
        ) + " more"@,
{
    if entries <= MAX_PRINTED_CASES_PER_SECTION {
        return None;
    }
    let mut line = "    ... ".to_owned();
    let count = human_count((entries - MAX_PRINTED_CASES_PER_SECTION) as u64);
    line.append(count.as_str());
    line.append(" more");
    Some(line)
}

} // verus!
