//! What classified outcomes say of the answers that they come from.

use crate::harness::model::{
    answer_name, CaseOutcome, CaseTelemetry, CompletedQueryRun, DiscoveredCase, Elapsed,
    ExpectedQueryResult, OutcomeCategory, QueryAnswer, QueryOutcome,
};
use crate::harness::parent::{
    completed, failure, first_wrong, lacks_oracle, query_outcomes, ChildStatus,
};
use crate::strings::{occurs, trimmed};
use crate::text::decimal_text;
use vstd::prelude::*;

verus! {

/// Query `i` has an oracle answer, and was answered otherwise or not at all.
pub open spec fn contradicted(
    expected: Seq<ExpectedQueryResult>,
    actual: Seq<QueryAnswer>,
    i: int,
) -> bool {
    &&& 0 <= i < expected.len()
    &&& expected[i].expected != QueryAnswer::Unknown
    &&& i < actual.len() ==> actual[i] != expected[i].expected
}

/// The answer to query `i` cannot be judged: none was expected of it.
pub open spec fn unjudged(
    expected: Seq<ExpectedQueryResult>,
    actual: Seq<QueryAnswer>,
    i: int,
) -> bool {
    &&& 0 <= i
    &&& i < expected.len() || i < actual.len()
    &&& i < expected.len() ==> expected[i].expected == QueryAnswer::Unknown
}

proof fn lemma_first_wrong_at(queries: Seq<QueryOutcome>, from: nat)
    ensures
        match first_wrong(queries, from) {
            Some(k) => from <= k < queries.len() && queries[k].category
                == OutcomeCategory::WrongAnswer && forall|j: int|
                from <= j < k ==> (#[trigger] queries[j]).category != OutcomeCategory::WrongAnswer,
            None => forall|j: int|
                from <= j < queries.len() ==> (#[trigger] queries[j]).category
                    != OutcomeCategory::WrongAnswer,
        },
    decreases queries.len() - from,
{
    if from < queries.len() && queries[from as int].category != OutcomeCategory::WrongAnswer {
        lemma_first_wrong_at(queries, from + 1);
    }
}

/// A completed run gives a wrong answer exactly when some query with a known expected answer was
/// answered otherwise or fewer answers than expected were given, whatever the other queries are.
///
/// It cannot be judged exactly when it gives no wrong answer and there is no query, or one of which
/// nothing is expected. It passes in all other cases.
pub proof fn lemma_run_category(
    outcome: CaseOutcome,
    case: DiscoveredCase,
    elapsed: Elapsed,
    run: CompletedQueryRun,
    telemetry: Option<CaseTelemetry>,
)
    requires
        completed(outcome, case, elapsed, run, telemetry),
    ensures
        ({
            let expected = case.expected_queries@;
            let actual = run.actual_answers@;
            let wrong = actual.len() < expected.len() || exists|i: int|
                0 <= i < actual.len() && i < expected.len() && (#[trigger] expected[i]).expected
                    != QueryAnswer::Unknown && actual[i] != expected[i].expected;
            let silent = (expected.len() == 0 && actual.len() == 0) || exists|i: int| #[trigger]
                unjudged(expected, actual, i);
            &&& outcome.category == OutcomeCategory::WrongAnswer <==> wrong
            &&& outcome.category == OutcomeCategory::NoOracle <==> !wrong && silent
            &&& outcome.category == OutcomeCategory::Pass <==> !wrong && !silent
        }),
{
    let expected = case.expected_queries@;
    let actual = run.actual_answers@;
    let queries = query_outcomes(expected, actual, elapsed);
    lemma_first_wrong_at(queries, 0);
    assert forall|i: int| 0 <= i < queries.len() implies (#[trigger] queries[i]).category == if
        i >= expected.len() || expected[i].expected == QueryAnswer::Unknown {
        OutcomeCategory::NoOracle
    } else if i < actual.len() && actual[i] == expected[i].expected {
        OutcomeCategory::Pass
    } else {
        OutcomeCategory::WrongAnswer
    } by {}
    let wrong = actual.len() < expected.len() || exists|i: int|
        0 <= i < actual.len() && i < expected.len() && (#[trigger] expected[i]).expected
            != QueryAnswer::Unknown && actual[i] != expected[i].expected;
    if exists|i: int|
        0 <= i < actual.len() && i < expected.len() && (#[trigger] expected[i]).expected
            != QueryAnswer::Unknown && actual[i] != expected[i].expected {
        let i = choose|i: int|
            0 <= i < actual.len() && i < expected.len() && (#[trigger] expected[i]).expected
                != QueryAnswer::Unknown && actual[i] != expected[i].expected;
        assert(queries[i].category == OutcomeCategory::WrongAnswer);
    }
    if first_wrong(queries, 0) is Some {
        let k = first_wrong(queries, 0)->0;
        assert(queries[k].category == OutcomeCategory::WrongAnswer);
        assert(expected[k].expected != QueryAnswer::Unknown);
    }
    if exists|i: int| #[trigger] unjudged(expected, actual, i) {
        let i = choose|i: int| #[trigger] unjudged(expected, actual, i);
        assert(queries[i].category == OutcomeCategory::NoOracle);
        assert(lacks_oracle(queries, queries.len() as int));
    }
    if lacks_oracle(queries, queries.len() as int) {
        let i = choose|i: int|
            0 <= i < queries.len() && (#[trigger] queries[i]).category == OutcomeCategory::NoOracle;
        assert(unjudged(expected, actual, i));
    }
}

/// A completed run lists every query that was expected or answered, in order, with what was expected
/// of it, what was answered, and whether that agrees.
pub proof fn lemma_run_queries(
    outcome: CaseOutcome,
    case: DiscoveredCase,
    elapsed: Elapsed,
    run: CompletedQueryRun,
    telemetry: Option<CaseTelemetry>,
    i: int,
)
    requires
        completed(outcome, case, elapsed, run, telemetry),
        0 <= i < outcome.queries@.len(),
    ensures
        ({
            let expected = case.expected_queries@;
            let actual = run.actual_answers@;
            let query = outcome.queries@[i];
            &&& outcome.queries@.len() >= expected.len()
            &&& outcome.queries@.len() >= actual.len()
            &&& i < expected.len() || i < actual.len()
            &&& i < expected.len() ==> query.expected == expected[i].expected
            &&& i >= expected.len() ==> query.expected == QueryAnswer::Unknown
            &&& i < actual.len() ==> query.actual == actual[i] && query.query_index == i
            &&& i >= actual.len() ==> query.actual == QueryAnswer::Unknown && query.query_index
                == expected[i].query_index
            &&& query.elapsed == elapsed
            &&& query.category == OutcomeCategory::WrongAnswer <==> contradicted(
                expected,
                actual,
                i,
            )
            &&& query.category == OutcomeCategory::NoOracle <==> unjudged(expected, actual, i)
            &&& query.category == OutcomeCategory::Pass <==> i < expected.len() && i < actual.len()
                && actual[i] == expected[i].expected && actual[i] != QueryAnswer::Unknown
        }),
{
    let n = run.actual_answers.len();
    let m = case.expected_queries.len();
    assert(n == run.actual_answers@.len() && m == case.expected_queries@.len());
    let queries = query_outcomes(case.expected_queries@, run.actual_answers@, elapsed);
    assert(outcome.queries@[i] == queries[i]);
}

/// The detail of a completed run names the first contradicted query, with the numbers of queries where
/// only their number is wrong; a run without a wrong answer has no detail. Case, times and telemetry
/// are handed through.
pub proof fn lemma_run_detail(
    outcome: CaseOutcome,
    case: DiscoveredCase,
    elapsed: Elapsed,
    run: CompletedQueryRun,
    telemetry: Option<CaseTelemetry>,
    i: int,
)
    requires
        completed(outcome, case, elapsed, run, telemetry),
    ensures
        ({
            let expected = case.expected_queries@;
            let actual = run.actual_answers@;
            let number = if i < actual.len() {
                i + 1
            } else {
                expected[i].query_index + 1
            };
            let found = if i < actual.len() {
                actual[i]
            } else {
                QueryAnswer::Unknown
            };
            &&& contradicted(expected, actual, i) && (forall|j: int|
                0 <= j < i ==> !#[trigger] contradicted(expected, actual, j)) ==> outcome.detail
                is Some && outcome.detail->0@ == "query "@ + decimal_text(number as nat)
                + " expected "@ + answer_name(expected[i].expected) + ", got "@ + answer_name(found)
            &&& (forall|j: int| !#[trigger] contradicted(expected, actual, j)) ==> if actual.len()
                < expected.len() {
                outcome.detail is Some && outcome.detail->0@ == "expected "@ + decimal_text(
                    expected.len(),
                ) + " queries, got "@ + decimal_text(actual.len())
            } else {
                outcome.detail is None
            }
            &&& outcome.case == case.record
            &&& outcome.total_elapsed == elapsed
            &&& outcome.solver_elapsed == Some(run.solver_elapsed)
            &&& outcome.telemetry == telemetry
        }),
{
    let expected = case.expected_queries@;
    let actual = run.actual_answers@;
    let queries = query_outcomes(expected, actual, elapsed);
    let n = run.actual_answers.len();
    assert(n == actual.len());
    lemma_first_wrong_at(queries, 0);
    assert forall|j: int| 0 <= j < queries.len() implies ((#[trigger] queries[j]).category
        == OutcomeCategory::WrongAnswer <==> contradicted(expected, actual, j)) by {}
    let first = contradicted(expected, actual, i) && (forall|j: int|
        0 <= j < i ==> !#[trigger] contradicted(expected, actual, j));
    if first {
        assert(queries[i].category == OutcomeCategory::WrongAnswer);
        let k = first_wrong(queries, 0)->0;
        assert(contradicted(expected, actual, k)) by {
            assert(queries[k].category == OutcomeCategory::WrongAnswer);
        }
        assert(k == i);
    }
    if forall|j: int| !#[trigger] contradicted(expected, actual, j) {
        if first_wrong(queries, 0) is Some {
            let k = first_wrong(queries, 0)->0;
            assert(queries[k].category == OutcomeCategory::WrongAnswer);
            assert(contradicted(expected, actual, k));
        }
    }
}

/// A child that ended without success has panicked where its error output says so, was killed where a
/// signal ended it otherwise, and failed the harness in all other cases.
pub proof fn lemma_failure_category(status: ChildStatus, stderr: Seq<char>)
    ensures
        ({
            let category = failure(status, stderr).0;
            let panicked = occurs(trimmed(stderr), "panicked at"@);
            &&& category == OutcomeCategory::Panic <==> panicked
            &&& category == OutcomeCategory::Killed <==> !panicked && status.signal is Some
            &&& category == OutcomeCategory::HarnessError <==> !panicked && status.signal is None
        }),
{
}

} // verus!
