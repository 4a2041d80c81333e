//! Assembling and ordering discovered cases.

use crate::harness::case_io::{
    case_text, content_text, encoding_named, failure_words, stored_content,
};
use crate::harness::discover::{
    answers_of, first_match, lookup_expectation, merge_expectations, merged_answers, numbered,
    parse_trace_metadata, rule_views, trace_metadata, MetadataView, RuleView,
};
use crate::harness::model::{CaseRecord, DiscoveredCase, ExpectationRule, QueryAnswer};
use crate::order::{
    inserted, lemma_path_asymmetric, lemma_path_chain, lemma_sorted, ordered, path_before,
    path_comes_before, ranks, slot, sorted, sorted_to,
};
use crate::text::same_text;
use vstd::prelude::*;

verus! {

/// The name of the manifest file that attaches expected results to benchmark paths.
pub fn manifest_name() -> (name: &'static str)
    ensures
        name@ == "expectations.tsv"@,
{
    "expectations.tsv"
}

/// The default answer for a path.
pub open spec fn default_answer(path: Seq<char>, rules: Seq<RuleView>) -> Option<QueryAnswer> {
    match first_match(path, rules, 0) {
        Some(i) => Some(rules[i].expected),
        None => None,
    }
}

/// The case is the one found at `path` with this key, size and metadata.
pub open spec fn case_found(
    case: DiscoveredCase,
    path: Seq<char>,
    key: Seq<char>,
    bytes: u64,
    rules: Seq<RuleView>,
    metadata: MetadataView,
) -> bool {
    let answers = merged_answers(metadata.expected, default_answer(key, rules));
    &&& case.absolute_path@ == path
    &&& case.record.key@ == key
    &&& case.record.bytes == bytes
    &&& match metadata.logic {
        Some(logic) => case.record.logic is Some && case.record.logic->0@ == logic,
        None => case.record.logic is None,
    }
    &&& case.record.query_count is Some
    &&& case.record.query_count->0 == answers.len()
    &&& numbered(case.expected_queries@)
    &&& answers_of(case.expected_queries@) == answers
}

/// Builds the case found at a path from its text, its size and the rules of its manifest.
pub fn build_case(
    absolute_path: String,
    key: String,
    bytes: u64,
    rules: &Vec<ExpectationRule>,
    input: &str,
) -> (result: Result<DiscoveredCase, String>)
    ensures
        match trace_metadata(input@) {
            Err(error) => result is Err && result->Err_0@ == error,
            Ok(metadata) => result is Ok && case_found(
                result->Ok_0,
                absolute_path@,
                key@,
                bytes,
                rule_views(rules@),
                metadata,
            ),
        },
{
    let found = lookup_expectation(key.as_str(), rules);
    let default_expected = match found {
        Some(i) => {
            proof {
                assert(rule_views(rules@)[i as int] == rules@[i as int].rule());
            }
            Some(rules[i].expected)
        },
        None => None,
    };
    let metadata = match parse_trace_metadata(input) {
        Err(error) => return Err(error),
        Ok(metadata) => metadata,
    };
    let expected_queries = merge_expectations(metadata.expected_queries, default_expected);
    proof {
        assert(answers_of(expected_queries@).len() == expected_queries@.len());
    }
    let query_count = Some(expected_queries.len());
    let record = CaseRecord { key, bytes, logic: metadata.logic, query_count };
    Ok(DiscoveredCase::new(absolute_path, record, expected_queries))
}

/// Builds the case found at a path from the bytes of its file.
pub fn read_case(
    absolute_path: String,
    name: &str,
    key: String,
    content: Vec<u8>,
    bytes: u64,
    rules: &Vec<ExpectationRule>,
) -> (result: Result<DiscoveredCase, String>)
    ensures
        match content_text(stored_content(encoding_named(name@), content@)) {
            Err(error) => result is Err && result->Err_0@ == failure_words(encoding_named(name@))
                + absolute_path@ + ": "@ + error,
            Ok(text) => match trace_metadata(text) {
                Err(error) => result is Err && result->Err_0@ == error,
                Ok(metadata) => result is Ok && case_found(
                    result->Ok_0,
                    absolute_path@,
                    key@,
                    bytes,
                    rule_views(rules@),
                    metadata,
                ),
            },
        },
{
    match case_text(name, absolute_path.as_str(), content) {
        Err(error) => Err(error),
        Ok(text) => build_case(absolute_path, key, bytes, rules, text.as_str()),
    }
}

/// A case at this path was found before.
pub open spec fn seen(cases: Seq<DiscoveredCase>, path: Seq<char>) -> bool {
    exists|i: int| 0 <= i < cases.len() && (#[trigger] cases[i]).absolute_path@ == path
}

/// No two cases share a path.
pub open spec fn distinct_paths(cases: Seq<DiscoveredCase>) -> bool {
    forall|i: int, j: int|
        0 <= i < j < cases.len() ==> (#[trigger] cases[i]).absolute_path@ != (
        #[trigger] cases[j]).absolute_path@
}

/// Returns whether a case at this path was found before.
pub fn is_seen(cases: &Vec<DiscoveredCase>, path: &str) -> (answer: bool)
    ensures
        answer == seen(cases@, path@),
{
    let mut i: usize = 0;
    while i < cases.len()
        invariant
            0 <= i <= cases@.len(),
            forall|j: int| 0 <= j < i ==> (#[trigger] cases@[j]).absolute_path@ != path@,
        decreases cases@.len() - i,
    {
        if same_text(cases[i].absolute_path.as_str(), path) {
            proof {
                assert(cases@[i as int].absolute_path@ == path@);
            }
            return true;
        }
        i += 1;
    }
    false
}

/// Adds a case unless its path was found before.
pub fn push_case(cases: &mut Vec<DiscoveredCase>, case: DiscoveredCase)
    requires
        distinct_paths(old(cases)@),
    ensures
        distinct_paths(final(cases)@),
        seen(old(cases)@, case.absolute_path@) ==> final(cases)@ == old(cases)@,
        !seen(old(cases)@, case.absolute_path@) ==> final(cases)@ == old(cases)@.push(case),
{
    if !is_seen(cases, case.absolute_path.as_str()) {
        let ghost before = cases@;
        cases.push(case);
        proof {
            assert forall|i: int, j: int| 0 <= i < j < cases@.len() implies (
            #[trigger] cases@[i]).absolute_path@ != (#[trigger] cases@[j]).absolute_path@ by {
                if j == before.len() {
                    assert(cases@[i] == before[i]);
                } else {
                    assert(before[i].absolute_path@ != before[j].absolute_path@);
                }
            }
        }
    }
}

/// Larger files come first, and files of one size in the order of their paths.
pub open spec fn larger_first() -> spec_fn(DiscoveredCase, DiscoveredCase) -> bool {
    |a: DiscoveredCase, b: DiscoveredCase|
        a.record.bytes > b.record.bytes || (a.record.bytes == b.record.bytes && path_before(
            a.absolute_path@,
            b.absolute_path@,
        ))
}

/// Sizes, then paths, rank the cases.
pub proof fn lemma_larger_first()
    ensures
        ranks(larger_first()),
{
    let before = larger_first();
    assert forall|a: DiscoveredCase, b: DiscoveredCase| #[trigger] before(a, b) implies !before(
        b,
        a,
    ) by {
        lemma_path_asymmetric(a.absolute_path@, b.absolute_path@);
    }
    assert forall|a: DiscoveredCase, b: DiscoveredCase, c: DiscoveredCase|
        #![trigger before(b, a), before(c, b)]
        !before(b, a) && !before(c, b) implies !before(c, a) by {
        if a.record.bytes == b.record.bytes && b.record.bytes == c.record.bytes {
            lemma_path_chain(a.absolute_path@, b.absolute_path@, c.absolute_path@);
        }
    }
}

/// Inserts a case in its place.
fn insert_case(cases: &mut Vec<DiscoveredCase>, x: DiscoveredCase)
    ensures
        final(cases)@ == inserted(old(cases)@, x, larger_first()),
{
    let ghost before = cases@;
    let mut at: usize = cases.len();
    while at > 0 && (x.record.bytes > cases[at - 1].record.bytes || (x.record.bytes == cases[at
        - 1].record.bytes && path_comes_before(
        x.absolute_path.as_str(),
        cases[at - 1].absolute_path.as_str(),
    )))
        invariant
            at <= cases@.len(),
            cases@ == before,
            slot(before, x, larger_first(), before.len()) == slot(
                before,
                x,
                larger_first(),
                at as nat,
            ),
        decreases at,
    {
        at -= 1;
    }
    cases.insert(at, x);
}

/// Puts the cases in the order in which they are run: larger files first, and files of one size in
/// the order of their paths.
pub fn order_cases(cases: Vec<DiscoveredCase>) -> (result: Vec<DiscoveredCase>)
    ensures
        result@ == sorted(cases@, larger_first()),
        ordered(result@, larger_first()),
        result@.to_multiset() == cases@.to_multiset(),
{
    let ghost all = cases@;
    let mut rest = cases;
    let mut result: Vec<DiscoveredCase> = Vec::new();
    let ghost mut n: nat = 0;
    while rest.len() > 0
        invariant
            n + rest@.len() == all.len(),
            rest@ == all.skip(n as int),
            result@ == sorted_to(all, larger_first(), n),
        decreases rest@.len(),
    {
        let case = rest.remove(0);
        proof {
            assert(case == all[n as int]);
            assert(rest@ =~= all.skip(n as int + 1));
            n = n + 1;
        }
        insert_case(&mut result, case);
    }
    proof {
        lemma_larger_first();
        lemma_sorted(all, larger_first(), all.len());
        assert(all.take(all.len() as int) =~= all);
    }
    result
}

} // verus!
