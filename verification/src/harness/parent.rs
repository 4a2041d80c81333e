//! Classification of child outcomes and bookkeeping of a run.

use crate::harness::model::{
    answer_name, CaseOutcome, CaseTelemetry, ChildReport, CompletedQueryRun, DiscoveredCase,
    Elapsed, ExpectedQueryResult, OutcomeCategory, OutcomeStats, QueryAnswer, QueryOutcome,
    RunSummary, FORMAT_VERSION,
};
use crate::order::{
    comes_before, inserted, lemma_sorted, lemma_text_total, lemma_text_transitive, ordered, ranks,
    slot, sorted, sorted_to, text_before,
};
use crate::strings::{
    char_lists, contains_text, line_list, lines_of, occurs, trim_chars, trim_text, trimmed,
};
use crate::telemetry::{totals_fit, Sample, Summary};
use crate::text::{decimal, decimal_text, joined, joined3, text_of};
use vstd::prelude::*;

verus! {

/// The number of workers that run `cases` cases.
pub open spec fn workers(requested: nat, cases: nat) -> nat {
    let bounded = if requested <= cases {
        requested
    } else {
        cases
    };
    if bounded == 0 {
        1
    } else {
        bounded
    }
}

/// Returns the number of workers for a number of cases.
pub fn worker_count(requested: usize, cases: usize) -> (jobs: usize)
    ensures
        jobs == workers(requested as nat, cases as nat),
        jobs >= 1,
{
    let bounded: usize = if requested <= cases {
        requested
    } else {
        cases
    };
    if bounded == 0 {
        1
    } else {
        bounded
    }
}

/// Returns the number of workers for a run over the discovered cases, or the error of a run without
/// cases.
pub fn plan_run(requested: usize, cases: usize) -> (plan: Result<usize, String>)
    ensures
        match plan {
            Ok(jobs) => cases > 0 && jobs == workers(requested as nat, cases as nat),
            Err(error) => cases == 0 && error@ == "no supported benchmark cases were found"@,
        },
{
    if cases == 0 {
        return Err("no supported benchmark cases were found".to_owned());
    }
    Ok(worker_count(requested, cases))
}

/// Returns the number of cases that are running once `done` of `total` cases have finished.
pub fn running_count(total: usize, done: usize, jobs: usize) -> (running: usize)
    ensures
        running == if done >= total {
            0
        } else if total - done <= jobs {
            total - done
        } else {
            jobs as int
        },
        running <= jobs,
        running > 0 ==> done + running <= total,
        running < jobs ==> done + running >= total,
{
    let left: usize = if done >= total {
        0
    } else {
        total - done
    };
    if left <= jobs {
        left
    } else {
        jobs
    }
}

/// The benchmark roots that are scanned: those asked for, or else the current directory.
pub fn requested_roots(roots: Vec<String>) -> (result: Vec<String>)
    ensures
        roots@.len() > 0 ==> result == roots,
        roots@.len() == 0 ==> result@.len() == 1 && result@[0]@ == "."@,
{
    if roots.len() > 0 {
        return roots;
    }
    let mut result: Vec<String> = Vec::new();
    result.push(".".to_owned());
    result
}

/// What a look at a running child shows.
pub enum Polled {
    /// The child has exited.
    Exited,
    /// The child is still running.
    Running,
    /// The look failed with this message.
    Failed(String),
}

/// What to do about a child.
pub enum WaitAction {
    /// Classify the outcome of the exited child.
    Finish,
    /// Kill the child: its time is up.
    Kill,
    /// Look again later.
    Sleep,
    /// Give the case up with this detail.
    GiveUp(String),
}

/// The pause between two looks at a child, in milliseconds.
pub const POLL_MILLIS: u64 = 10;

/// Decides what to do about a child after a look at it.
pub fn next_wait(polled: Polled, elapsed: Elapsed, timeout: Elapsed) -> (action: WaitAction)
    ensures
        match polled {
            Polled::Exited => action == WaitAction::Finish,
            Polled::Running => action == if elapsed.total() >= timeout.total() {
                WaitAction::Kill
            } else {
                WaitAction::Sleep
            },
            Polled::Failed(error) => action is GiveUp && action->GiveUp_0@ == "wait error: "@
                + error@,
        },
        polled is Running && elapsed.wf() && timeout.wf() ==> (action == WaitAction::Kill
            <==> elapsed.secs > timeout.secs || (elapsed.secs == timeout.secs && elapsed.nanos
            >= timeout.nanos)),
{
    match polled {
        Polled::Exited => WaitAction::Finish,
        Polled::Running => if elapsed.at_least(timeout) {
            WaitAction::Kill
        } else {
            WaitAction::Sleep
        },
        Polled::Failed(error) => WaitAction::GiveUp(joined("wait error: ", error.as_str())),
    }
}

/// The detail is this text.
pub open spec fn says(detail: Option<String>, text: Seq<char>) -> bool {
    detail is Some && detail->0@ == text
}

/// The outcome is that of a case that ended without answers in this category.
pub open spec fn ended(
    outcome: CaseOutcome,
    case: DiscoveredCase,
    elapsed: Elapsed,
    category: OutcomeCategory,
    telemetry: Option<CaseTelemetry>,
) -> bool {
    &&& outcome.case == case.record
    &&& outcome.total_elapsed == elapsed
    &&& outcome.solver_elapsed is None
    &&& outcome.category == category
    &&& outcome.queries@.len() == 0
    &&& outcome.telemetry == telemetry
}

/// Builds the outcome of a case that ended without answers.
fn ended_outcome(
    case: DiscoveredCase,
    elapsed: Elapsed,
    category: OutcomeCategory,
    detail: Option<String>,
    telemetry: Option<CaseTelemetry>,
) -> (outcome: CaseOutcome)
    ensures
        ended(outcome, case, elapsed, category, telemetry),
        outcome.detail == detail,
{
    CaseOutcome {
        case: case.into_record(),
        total_elapsed: elapsed,
        solver_elapsed: None,
        category,
        queries: Vec::new(),
        detail,
        telemetry,
    }
}

/// Creates one infrastructure error outcome.
pub fn harness_error(case: DiscoveredCase, elapsed: Elapsed, detail: String) -> (outcome:
    CaseOutcome)
    ensures
        ended(outcome, case, elapsed, OutcomeCategory::HarnessError, None),
        outcome.detail == Some(detail),
{
    ended_outcome(case, elapsed, OutcomeCategory::HarnessError, Some(detail), None)
}

/// Creates the outcome of a case that ran out of time.
pub fn timeout_outcome(
    case: DiscoveredCase,
    elapsed: Elapsed,
    telemetry: Result<Option<CaseTelemetry>, String>,
) -> (outcome: CaseOutcome)
    ensures
        ended(outcome, case, elapsed, OutcomeCategory::Timeout, usable(telemetry)),
        outcome.detail is None,
{
    let telemetry = usable_telemetry(telemetry);
    ended_outcome(case, elapsed, OutcomeCategory::Timeout, None, telemetry)
}

/// The telemetry, if it could be loaded.
pub open spec fn usable(telemetry: Result<Option<CaseTelemetry>, String>) -> Option<CaseTelemetry> {
    match telemetry {
        Ok(telemetry) => telemetry,
        Err(_) => None,
    }
}

/// Returns the telemetry, if it could be loaded.
fn usable_telemetry(telemetry: Result<Option<CaseTelemetry>, String>) -> (result: Option<
    CaseTelemetry,
>)
    ensures
        result == usable(telemetry),
{
    match telemetry {
        Ok(telemetry) => telemetry,
        Err(_) => None,
    }
}

/// How a child process ended.
#[derive(Debug, Clone, Copy, PartialEq, Eq, Structural)]
pub struct ChildStatus {
    /// The process reported success.
    pub success: bool,
    /// The exit code, when there is one.
    pub code: Option<i32>,
    /// The signal that ended the process, when there is one.
    pub signal: Option<i32>,
}

/// The text of a number that may be negative.
pub open spec fn signed_text(n: int) -> Seq<char> {
    if n < 0 {
        "-"@ + decimal_text((-n) as nat)
    } else {
        decimal_text(n as nat)
    }
}

/// Returns the text of a number that may be negative.
pub fn signed_decimal(n: i32) -> (text: String)
    ensures
        text@ == signed_text(n as int),
{
    if n < 0 {
        let magnitude = decimal((-(n as i64)) as u64);
        joined("-", magnitude.as_str())
    } else {
        decimal(n as u64)
    }
}

/// The detail for a child that a signal ended.
pub open spec fn signal_detail(signal: i32) -> Seq<char> {
    if signal == 9 {
        "terminated by SIGKILL (possible OOM kill)"@
    } else {
        "terminated by signal "@ + signed_text(signal as int)
    }
}

/// The detail for a child that exited without success.
pub open spec fn exit_detail(code: Option<i32>, stderr: Seq<char>) -> Seq<char> {
    match code {
        Some(code) => {
            let start = "child exited with status code "@ + signed_text(code as int);
            if stderr.len() == 0 {
                start
            } else {
                start + ": "@ + trimmed(stderr)
            }
        },
        None => "child exited without status code"@,
    }
}

/// The category and the words for a child that ended without success.
pub open spec fn failure(status: ChildStatus, stderr: Seq<char>) -> (OutcomeCategory, Seq<char>) {
    let stderr = trimmed(stderr);
    if occurs(stderr, "panicked at"@) {
        (OutcomeCategory::Panic, trimmed(stderr))
    } else if status.signal is Some {
        (OutcomeCategory::Killed, signal_detail(status.signal->0))
    } else {
        (OutcomeCategory::HarnessError, exit_detail(status.code, stderr))
    }
}

/// Returns the category and the words for a child that ended without success.
pub fn describe_failure(status: ChildStatus, stderr: &str) -> (found: (OutcomeCategory, String))
    ensures
        (found.0, found.1@) == failure(status, stderr@),
{
    let stderr = trim_text(stderr);
    if contains_text(stderr.as_str(), "panicked at") {
        return (OutcomeCategory::Panic, trim_text(stderr.as_str()));
    }
    if let Some(signal) = status.signal {
        let detail = if signal == 9 {
            "terminated by SIGKILL (possible OOM kill)".to_owned()
        } else {
            let number = signed_decimal(signal);
            joined("terminated by signal ", number.as_str())
        };
        return (OutcomeCategory::Killed, detail);
    }
    let detail = match status.code {
        Some(code) => {
            let number = signed_decimal(code);
            let start = joined("child exited with status code ", number.as_str());
            if stderr.as_str().unicode_len() == 0 {
                start
            } else {
                let rest = trim_text(stderr.as_str());
                joined3(start.as_str(), ": ", rest.as_str())
            }
        },
        None => "child exited without status code".to_owned(),
    };
    (OutcomeCategory::HarnessError, detail)
}

/// The outcome is that of a child that ended without success.
pub open spec fn failed(
    outcome: CaseOutcome,
    case: DiscoveredCase,
    elapsed: Elapsed,
    status: ChildStatus,
    stderr: Seq<char>,
    telemetry: Option<CaseTelemetry>,
) -> bool {
    &&& ended(outcome, case, elapsed, failure(status, stderr).0, telemetry)
    &&& says(outcome.detail, failure(status, stderr).1)
}

/// Classifies a child process that ended without success.
pub fn classify_failure(
    case: DiscoveredCase,
    elapsed: Elapsed,
    status: ChildStatus,
    stderr: &str,
    telemetry: Option<CaseTelemetry>,
) -> (outcome: CaseOutcome)
    ensures
        failed(outcome, case, elapsed, status, stderr@, telemetry),
{
    let (category, detail) = describe_failure(status, stderr);
    ended_outcome(case, elapsed, category, Some(detail), telemetry)
}

/// The answer expected of query `i`.
pub open spec fn expected_at(expected: Seq<ExpectedQueryResult>, i: int) -> QueryAnswer {
    if i < expected.len() {
        expected[i].expected
    } else {
        QueryAnswer::Unknown
    }
}

/// The category of an answer.
pub open spec fn answer_category(expected: QueryAnswer, actual: QueryAnswer) -> OutcomeCategory {
    if expected == QueryAnswer::Unknown {
        OutcomeCategory::NoOracle
    } else if expected == actual {
        OutcomeCategory::Pass
    } else {
        OutcomeCategory::WrongAnswer
    }
}

/// The number of queries that were expected or answered.
pub open spec fn query_total(expected: Seq<ExpectedQueryResult>, actual: Seq<QueryAnswer>) -> nat {
    if expected.len() <= actual.len() {
        actual.len()
    } else {
        expected.len()
    }
}

/// The outcome of query `i`; a missing answer counts as unknown.
pub open spec fn query_outcome(
    expected: Seq<ExpectedQueryResult>,
    actual: Seq<QueryAnswer>,
    elapsed: Elapsed,
    i: int,
) -> QueryOutcome {
    let wanted = expected_at(expected, i);
    let found = if i < actual.len() {
        actual[i]
    } else {
        QueryAnswer::Unknown
    };
    QueryOutcome {
        query_index: if i < actual.len() {
            i as usize
        } else {
            expected[i].query_index
        },
        expected: wanted,
        actual: found,
        elapsed,
        category: answer_category(wanted, found),
    }
}

/// The outcomes of all queries.
pub open spec fn query_outcomes(
    expected: Seq<ExpectedQueryResult>,
    actual: Seq<QueryAnswer>,
    elapsed: Elapsed,
) -> Seq<QueryOutcome> {
    Seq::new(query_total(expected, actual), |i: int| query_outcome(expected, actual, elapsed, i))
}

/// The first query from `i` on that was answered wrongly.
pub open spec fn first_wrong(queries: Seq<QueryOutcome>, i: nat) -> Option<int>
    decreases queries.len() - i,
{
    if i >= queries.len() {
        None
    } else if queries[i as int].category == OutcomeCategory::WrongAnswer {
        Some(i as int)
    } else {
        first_wrong(queries, i + 1)
    }
}

/// Some query among the first `n` has no oracle answer.
pub open spec fn lacks_oracle(queries: Seq<QueryOutcome>, n: int) -> bool {
    exists|i: int| 0 <= i < n && (#[trigger] queries[i]).category == OutcomeCategory::NoOracle
}

/// The category of a completed run.
pub open spec fn run_category(
    expected: Seq<ExpectedQueryResult>,
    actual: Seq<QueryAnswer>,
    queries: Seq<QueryOutcome>,
) -> OutcomeCategory {
    if first_wrong(queries, 0) is Some || actual.len() < expected.len() {
        OutcomeCategory::WrongAnswer
    } else if queries.len() == 0 || lacks_oracle(queries, queries.len() as int) {
        OutcomeCategory::NoOracle
    } else {
        OutcomeCategory::Pass
    }
}

/// The detail of a wrong answer.
pub open spec fn wrong_detail(query: QueryOutcome) -> Seq<char> {
    "query "@ + decimal_text((query.query_index + 1) as nat) + " expected "@ + answer_name(
        query.expected,
    ) + ", got "@ + answer_name(query.actual)
}

/// The detail of a completed run.
pub open spec fn run_detail(
    expected: Seq<ExpectedQueryResult>,
    actual: Seq<QueryAnswer>,
    queries: Seq<QueryOutcome>,
) -> Option<Seq<char>> {
    match first_wrong(queries, 0) {
        Some(i) => Some(wrong_detail(queries[i])),
        None => if actual.len() < expected.len() {
            Some(
                "expected "@ + decimal_text(expected.len()) + " queries, got "@ + decimal_text(
                    actual.len(),
                ),
            )
        } else {
            None
        },
    }
}

/// Every query index leaves room for its successor.
pub open spec fn countable(expected: Seq<ExpectedQueryResult>) -> bool {
    forall|i: int| 0 <= i < expected.len() ==> (#[trigger] expected[i]).query_index < usize::MAX
}

/// The outcome is that of a completed run.
pub open spec fn completed(
    outcome: CaseOutcome,
    case: DiscoveredCase,
    elapsed: Elapsed,
    run: CompletedQueryRun,
    telemetry: Option<CaseTelemetry>,
) -> bool {
    let expected = case.expected_queries@;
    let actual = run.actual_answers@;
    let queries = query_outcomes(expected, actual, elapsed);
    &&& outcome.case == case.record
    &&& outcome.total_elapsed == elapsed
    &&& outcome.solver_elapsed == Some(run.solver_elapsed)
    &&& outcome.category == run_category(expected, actual, queries)
    &&& outcome.queries@ == queries
    &&& match run_detail(expected, actual, queries) {
        Some(detail) => says(outcome.detail, detail),
        None => outcome.detail is None,
    }
    &&& outcome.telemetry == telemetry
}

proof fn lemma_first_wrong(queries: Seq<QueryOutcome>, i: nat, k: int)
    requires
        i <= k < queries.len(),
        queries[k].category == OutcomeCategory::WrongAnswer,
        forall|j: int|
            i <= j < k ==> (#[trigger] queries[j]).category != OutcomeCategory::WrongAnswer,
    ensures
        first_wrong(queries, i) == Some(k),
    decreases k - i,
{
    if i < k {
        lemma_first_wrong(queries, i + 1, k);
    }
}

proof fn lemma_none_wrong(queries: Seq<QueryOutcome>, i: nat)
    requires
        forall|j: int|
            i <= j < queries.len() ==> (#[trigger] queries[j]).category
                != OutcomeCategory::WrongAnswer,
    ensures
        first_wrong(queries, i) is None,
    decreases queries.len() - i,
{
    if i < queries.len() {
        lemma_none_wrong(queries, i + 1);
    }
}

/// Returns the outcomes of all queries.
fn compare_answers(
    expected: &Vec<ExpectedQueryResult>,
    actual: &Vec<QueryAnswer>,
    elapsed: Elapsed,
) -> (queries: Vec<QueryOutcome>)
    ensures
        queries@ == query_outcomes(expected@, actual@, elapsed),
{
    let mut queries: Vec<QueryOutcome> = Vec::new();
    let total: usize = if expected.len() <= actual.len() {
        actual.len()
    } else {
        expected.len()
    };
    let ghost goal = query_outcomes(expected@, actual@, elapsed);
    let mut i: usize = 0;
    while i < total
        invariant
            0 <= i <= total,
            total == query_total(expected@, actual@),
            goal == query_outcomes(expected@, actual@, elapsed),
            queries@.len() == i,
            forall|j: int| 0 <= j < i ==> (#[trigger] queries@[j]) == goal[j],
        decreases total - i,
    {
        let wanted = if i < expected.len() {
            expected[i].expected
        } else {
            QueryAnswer::Unknown
        };
        let found = if i < actual.len() {
            actual[i]
        } else {
            QueryAnswer::Unknown
        };
        let query_index = if i < actual.len() {
            i
        } else {
            expected[i].query_index
        };
        let category = if wanted == QueryAnswer::Unknown {
            OutcomeCategory::NoOracle
        } else if wanted == found {
            OutcomeCategory::Pass
        } else {
            OutcomeCategory::WrongAnswer
        };
        queries.push(
            QueryOutcome { query_index, expected: wanted, actual: found, elapsed, category },
        );
        i += 1;
    }
    proof {
        assert(queries@ =~= goal);
    }
    queries
}

/// Maps one completed child query sequence into the final parent outcome categories.
pub fn classify_completed_run(
    case: DiscoveredCase,
    elapsed: Elapsed,
    run: CompletedQueryRun,
    telemetry: Option<CaseTelemetry>,
) -> (outcome: CaseOutcome)
    requires
        countable(case.expected_queries@),
    ensures
        completed(outcome, case, elapsed, run, telemetry),
{
    let ghost expected = case.expected_queries@;
    let ghost actual = run.actual_answers@;
    let queries = compare_answers(&case.expected_queries, &run.actual_answers, elapsed);
    let mut no_oracle = false;
    let mut wrong_at: Option<usize> = None;
    let mut i: usize = 0;
    while i < queries.len()
        invariant
            0 <= i <= queries@.len(),
            no_oracle == lacks_oracle(queries@, i as int),
            match wrong_at {
                Some(k) => k < i && queries@[k as int].category == OutcomeCategory::WrongAnswer
                    && forall|j: int|
                    0 <= j < k ==> (#[trigger] queries@[j]).category
                        != OutcomeCategory::WrongAnswer,
                None => forall|j: int|
                    0 <= j < i ==> (#[trigger] queries@[j]).category
                        != OutcomeCategory::WrongAnswer,
            },
        decreases queries@.len() - i,
    {
        let category = queries[i].category;
        if category == OutcomeCategory::NoOracle {
            no_oracle = true;
            proof {
                assert(queries@[i as int].category == OutcomeCategory::NoOracle);
            }
        }
        if category == OutcomeCategory::WrongAnswer && wrong_at.is_none() {
            wrong_at = Some(i);
        }
        i += 1;
    }
    proof {
        match wrong_at {
            Some(k) => {
                lemma_first_wrong(queries@, 0, k as int);
            },
            None => {
                lemma_none_wrong(queries@, 0);
            },
        }
    }
    let missing = run.actual_answers.len() < case.expected_queries.len();
    let category = if wrong_at.is_some() || missing {
        OutcomeCategory::WrongAnswer
    } else if queries.len() == 0 || no_oracle {
        OutcomeCategory::NoOracle
    } else {
        OutcomeCategory::Pass
    };
    let detail = match wrong_at {
        Some(k) => {
            let query = queries[k];
            proof {
                let n = queries.len();
                if k >= actual.len() {
                    assert(expected[k as int].query_index < usize::MAX);
                }
            }
            let number = decimal(query.query_index as u64 + 1);
            let mut text = joined3("query ", number.as_str(), " expected ");
            text.append(query.expected.name());
            text.append(", got ");
            text.append(query.actual.name());
            Some(text)
        },
        None => if missing {
            let wanted = decimal(case.expected_queries.len() as u64);
            let mut text = joined3("expected ", wanted.as_str(), " queries, got ");
            let found = decimal(run.actual_answers.len() as u64);
            text.append(found.as_str());
            Some(text)
        } else {
            None
        },
    };
    CaseOutcome {
        case: case.into_record(),
        total_elapsed: elapsed,
        solver_elapsed: Some(run.solver_elapsed),
        category,
        queries,
        detail,
        telemetry,
    }
}

/// A run passes exactly when every expected query has an oracle answer, every query has one, and all
/// answers agree.
pub proof fn lemma_pass(
    expected: Seq<ExpectedQueryResult>,
    actual: Seq<QueryAnswer>,
    elapsed: Elapsed,
)
    ensures
        run_category(expected, actual, query_outcomes(expected, actual, elapsed))
            == OutcomeCategory::Pass <==> (expected.len() == actual.len() && actual.len() > 0
            && forall|i: int|
            0 <= i < actual.len() ==> (#[trigger] actual[i]) == expected[i].expected && actual[i]
                != QueryAnswer::Unknown),
{
    let queries = query_outcomes(expected, actual, elapsed);
    let passes = run_category(expected, actual, queries) == OutcomeCategory::Pass;
    if passes {
        assert forall|i: int| 0 <= i < actual.len() implies expected.len() == actual.len() && (
        #[trigger] actual[i]) == expected[i].expected && actual[i] != QueryAnswer::Unknown by {
            lemma_pass_at(queries, i);
            if expected.len() < actual.len() {
                lemma_pass_at(queries, expected.len() as int);
            }
        }
    } else if expected.len() == actual.len() && actual.len() > 0 && forall|i: int|
        0 <= i < actual.len() ==> (#[trigger] actual[i]) == expected[i].expected && actual[i]
            != QueryAnswer::Unknown {
        assert forall|j: int| 0 <= j < queries.len() implies (#[trigger] queries[j]).category
            == OutcomeCategory::Pass by {
            assert(actual[j] == expected[j].expected);
        }
        lemma_none_wrong(queries, 0);
    }
}

proof fn lemma_pass_at(queries: Seq<QueryOutcome>, i: int)
    requires
        0 <= i < queries.len(),
        first_wrong(queries, 0) is None,
        !lacks_oracle(queries, queries.len() as int),
    ensures
        queries[i].category != OutcomeCategory::WrongAnswer,
        queries[i].category != OutcomeCategory::NoOracle,
{
    lemma_absent(queries, 0, i);
}

proof fn lemma_absent(queries: Seq<QueryOutcome>, i: nat, k: int)
    requires
        i <= k < queries.len(),
        first_wrong(queries, i) is None,
    ensures
        queries[k].category != OutcomeCategory::WrongAnswer,
    decreases k - i,
{
    if i < k {
        lemma_absent(queries, i + 1, k);
    }
}

/// The outcome is the one that a report stands for.
pub open spec fn reported(
    outcome: CaseOutcome,
    case: DiscoveredCase,
    elapsed: Elapsed,
    report: ChildReport,
    telemetry: Option<CaseTelemetry>,
) -> bool {
    match report {
        ChildReport::Completed(run) => completed(outcome, case, elapsed, run, telemetry),
        ChildReport::ParseError(error) => ended(
            outcome,
            case,
            elapsed,
            OutcomeCategory::ParseError,
            telemetry,
        ) && says(outcome.detail, trimmed(error@)),
        ChildReport::InputError(error) => ended(
            outcome,
            case,
            elapsed,
            OutcomeCategory::HarnessError,
            None,
        ) && outcome.detail == Some(error),
        ChildReport::ProtocolError(error) => ended(
            outcome,
            case,
            elapsed,
            OutcomeCategory::HarnessError,
            None,
        ) && outcome.detail == Some(error),
    }
}

/// Maps a structured child report onto the final parent outcome categories.
pub fn classify_report(
    case: DiscoveredCase,
    elapsed: Elapsed,
    report: ChildReport,
    telemetry: Option<CaseTelemetry>,
) -> (outcome: CaseOutcome)
    requires
        countable(case.expected_queries@),
    ensures
        reported(outcome, case, elapsed, report, telemetry),
{
    match report {
        ChildReport::Completed(run) => classify_completed_run(case, elapsed, run, telemetry),
        ChildReport::ParseError(error) => {
            let detail = trim_text(error.as_str());
            ended_outcome(case, elapsed, OutcomeCategory::ParseError, Some(detail), telemetry)
        },
        ChildReport::InputError(error) => harness_error(case, elapsed, error),
        ChildReport::ProtocolError(error) => harness_error(case, elapsed, error),
    }
}

/// The outcome is that of a child that ended.
pub open spec fn classified(
    outcome: CaseOutcome,
    case: DiscoveredCase,
    elapsed: Elapsed,
    status: ChildStatus,
    report: Option<Result<ChildReport, String>>,
    stderr: Seq<char>,
    telemetry: Result<Option<CaseTelemetry>, String>,
) -> bool {
    if !status.success {
        failed(outcome, case, elapsed, status, stderr, usable(telemetry))
    } else {
        match (report, telemetry) {
            (None, _) => ended(outcome, case, elapsed, OutcomeCategory::HarnessError, None) && says(
                outcome.detail,
                "missing child report"@,
            ),
            (Some(Err(error)), _) => ended(
                outcome,
                case,
                elapsed,
                OutcomeCategory::HarnessError,
                None,
            ) && says(outcome.detail, "invalid child report: "@ + error@),
            (Some(Ok(_)), Err(error)) => ended(
                outcome,
                case,
                elapsed,
                OutcomeCategory::HarnessError,
                None,
            ) && says(outcome.detail, "invalid child telemetry: "@ + error@),
            (Some(Ok(report)), Ok(telemetry)) => reported(
                outcome,
                case,
                elapsed,
                report,
                telemetry,
            ),
        }
    }
}

/// Classifies a completed child process into a stable harness outcome. The report is absent where the
/// child left none, and an error where it could not be read back.
pub fn classify_child_completion(
    case: DiscoveredCase,
    elapsed: Elapsed,
    status: ChildStatus,
    report: Option<Result<ChildReport, String>>,
    stderr: &str,
    telemetry: Result<Option<CaseTelemetry>, String>,
) -> (outcome: CaseOutcome)
    requires
        countable(case.expected_queries@),
    ensures
        classified(outcome, case, elapsed, status, report, stderr@, telemetry),
{
    if !status.success {
        let telemetry = usable_telemetry(telemetry);
        return classify_failure(case, elapsed, status, stderr, telemetry);
    }
    let report = match report {
        None => return harness_error(case, elapsed, "missing child report".to_owned()),
        Some(Err(error)) => {
            let detail = joined("invalid child report: ", error.as_str());
            return harness_error(case, elapsed, detail);
        },
        Some(Ok(report)) => report,
    };
    let telemetry = match telemetry {
        Err(error) => {
            let detail = joined("invalid child telemetry: ", error.as_str());
            return harness_error(case, elapsed, detail);
        },
        Ok(telemetry) => telemetry,
    };
    classify_report(case, elapsed, report, telemetry)
}

/// Summarizes the samples of one case, keeping the raw samples only when asked to.
pub fn case_telemetry(samples: Vec<Sample>, retain_samples: bool) -> (telemetry: Option<
    CaseTelemetry,
>)
    requires
        totals_fit(samples@),
    ensures
        match telemetry {
            None => samples@.len() == 0,
            Some(telemetry) => {
                &&& samples@.len() > 0
                &&& telemetry.summary.summarizes(samples@)
                &&& retain_samples ==> telemetry.samples == samples
                &&& !retain_samples ==> telemetry.samples@.len() == 0
            },
        },
{
    match Summary::from_samples(samples.as_slice()) {
        None => None,
        Some(summary) => Some(
            CaseTelemetry {
                summary,
                samples: if retain_samples {
                    samples
                } else {
                    Vec::new()
                },
            },
        ),
    }
}

/// The rows among the first `n` lines that are not blank: number from one, and trimmed text.
pub open spec fn filled_rows(lines: Seq<Seq<char>>, n: nat) -> Seq<(nat, Seq<char>)>
    decreases n,
{
    if n == 0 {
        Seq::empty()
    } else {
        let before = filled_rows(lines, (n - 1) as nat);
        let line = trimmed(lines[n - 1]);
        if line.len() == 0 {
            before
        } else {
            before.push((n, line))
        }
    }
}

/// One row of a telemetry file.
#[derive(Debug, PartialEq, Eq)]
pub struct SampleRow {
    /// The number of the line, from one.
    pub number: usize,
    /// The text of the line without surrounding white space.
    pub text: String,
}

impl SampleRow {
    /// The row as a mathematical value.
    pub open spec fn row(self) -> (nat, Seq<char>) {
        (self.number as nat, self.text@)
    }
}

/// Splits a telemetry file into the rows that hold samples.
pub fn sample_rows(payload: &str) -> (rows: Vec<SampleRow>)
    ensures
        rows@.map_values(|r: SampleRow| r.row()) == filled_rows(
            line_list(payload@),
            line_list(payload@).len(),
        ),
{
    let lines = lines_of(payload);
    let ghost texts = line_list(payload@);
    let mut rows: Vec<SampleRow> = Vec::new();
    proof {
        assert(rows@.map_values(|r: SampleRow| r.row()) =~= Seq::<(nat, Seq<char>)>::empty());
    }
    let mut i: usize = 0;
    while i < lines.len()
        invariant
            0 <= i <= lines@.len(),
            char_lists(lines@) == texts,
            rows@.map_values(|r: SampleRow| r.row()) == filled_rows(texts, i as nat),
        decreases lines@.len() - i,
    {
        proof {
            assert(texts[i as int] == lines@[i as int]@);
        }
        let line = trim_chars(lines[i].as_slice());
        if line.len() > 0 {
            let ghost before = rows@;
            let row = SampleRow { number: i + 1, text: text_of(line.as_slice()) };
            rows.push(row);
            proof {
                assert(rows@.map_values(|r: SampleRow| r.row()) =~= before.map_values(
                    |r: SampleRow| r.row(),
                ).push(row.row()));
            }
        }
        i += 1;
    }
    rows
}

/// The message for a row that could not be read back.
pub fn sample_error(row: usize, path: &str, error: &str) -> (message: String)
    ensures
        message@ == "failed to parse telemetry sample "@ + decimal_text(row as nat) + " from "@
            + path@ + ": "@ + error@,
{
    let number = decimal(row as u64);
    let mut message = joined3("failed to parse telemetry sample ", number.as_str(), " from ");
    message.append(path);
    message.append(": ");
    message.append(error);
    message
}

/// Outcomes in the order of their comparison keys.
pub open spec fn by_key() -> spec_fn(CaseOutcome, CaseOutcome) -> bool {
    |a: CaseOutcome, b: CaseOutcome| text_before(a.case.key@, b.case.key@)
}

/// Keys rank the outcomes.
pub proof fn lemma_by_key()
    ensures
        ranks(by_key()),
{
    let before = by_key();
    assert forall|a: CaseOutcome, b: CaseOutcome| #[trigger] before(a, b) implies !before(b, a) by {
        lemma_text_total(a.case.key@, b.case.key@);
    }
    assert forall|a: CaseOutcome, b: CaseOutcome, c: CaseOutcome|
        #![trigger before(b, a), before(c, b)]
        !before(b, a) && !before(c, b) implies !before(c, a) by {
        let x = a.case.key@;
        let y = b.case.key@;
        let z = c.case.key@;
        lemma_text_total(x, y);
        lemma_text_total(y, z);
        lemma_text_total(x, z);
        if x != y && y != z {
            lemma_text_transitive(x, y, z);
        }
    }
}

/// Inserts an outcome in its place.
fn insert_outcome(outcomes: &mut Vec<CaseOutcome>, x: CaseOutcome)
    ensures
        final(outcomes)@ == inserted(old(outcomes)@, x, by_key()),
{
    let ghost before = outcomes@;
    let mut at: usize = outcomes.len();
    while at > 0 && comes_before(x.case.key.as_str(), outcomes[at - 1].case.key.as_str())
        invariant
            at <= outcomes@.len(),
            outcomes@ == before,
            slot(before, x, by_key(), before.len()) == slot(before, x, by_key(), at as nat),
        decreases at,
    {
        at -= 1;
    }
    outcomes.insert(at, x);
}

/// Puts outcomes in the order of their comparison keys.
pub fn order_outcomes(outcomes: Vec<CaseOutcome>) -> (result: Vec<CaseOutcome>)
    ensures
        result@ == sorted(outcomes@, by_key()),
        ordered(result@, by_key()),
        result@.to_multiset() == outcomes@.to_multiset(),
{
    let ghost all = outcomes@;
    let mut rest = outcomes;
    let mut result: Vec<CaseOutcome> = Vec::new();
    let ghost mut n: nat = 0;
    while rest.len() > 0
        invariant
            n + rest@.len() == all.len(),
            rest@ == all.skip(n as int),
            result@ == sorted_to(all, by_key(), n),
        decreases rest@.len(),
    {
        let outcome = rest.remove(0);
        proof {
            assert(outcome == all[n as int]);
            assert(rest@ =~= all.skip(n as int + 1));
            n = n + 1;
        }
        insert_outcome(&mut result, outcome);
    }
    proof {
        lemma_by_key();
        lemma_sorted(all, by_key(), all.len());
        assert(all.take(all.len() as int) =~= all);
    }
    result
}

/// The categories of outcomes.
pub open spec fn categories(outcomes: Seq<CaseOutcome>) -> Seq<OutcomeCategory> {
    outcomes.map_values(|o: CaseOutcome| o.category)
}

/// Assembles the final summary of a run; the saved cases stand in the order of their keys.
pub fn summarize_run(
    roots: Vec<String>,
    jobs: usize,
    timeout: Elapsed,
    total_elapsed: Elapsed,
    outcomes: Vec<CaseOutcome>,
    stats: OutcomeStats,
) -> (summary: RunSummary)
    ensures
        summary.format_version == FORMAT_VERSION,
        summary.roots == roots,
        summary.jobs == jobs,
        summary.timeout == timeout,
        summary.total_elapsed == total_elapsed,
        summary.cases@ == sorted(outcomes@, by_key()),
        summary.stats == stats,
{
    RunSummary {
        format_version: FORMAT_VERSION,
        roots,
        jobs,
        timeout,
        total_elapsed,
        cases: order_outcomes(outcomes),
        stats,
    }
}

/// The outcomes collected so far and their counters.
pub struct RunProgress {
    /// Outcomes in the order in which they came.
    pub outcomes: Vec<CaseOutcome>,
    /// The counters of these outcomes.
    pub stats: OutcomeStats,
}

impl RunProgress {
    /// The counters are those of the outcomes.
    pub open spec fn wf(&self) -> bool {
        &&& self.stats.balanced()
        &&& self.stats.tallies(categories(self.outcomes@), self.outcomes@.len())
    }

    /// Returns a run of which nothing has finished.
    pub fn new() -> (progress: Self)
        ensures
            progress.wf(),
            progress.outcomes@.len() == 0,
    {
        RunProgress { outcomes: Vec::new(), stats: OutcomeStats::zero() }
    }

    /// Adds one completed outcome.
    pub fn add_outcome(&mut self, outcome: CaseOutcome)
        requires
            old(self).wf(),
            old(self).stats.done < usize::MAX,
        ensures
            final(self).wf(),
            final(self).outcomes@ == old(self).outcomes@.push(outcome),
    {
        let ghost before = *self;
        let ghost had = categories(self.outcomes@);
        self.stats.record(outcome.category);
        self.outcomes.push(outcome);
        proof {
            let now = categories(self.outcomes@);
            let n = before.outcomes@.len();
            assert(now =~= had.push(outcome.category));
            assert forall|category: OutcomeCategory| #[trigger]
                self.stats.count(category) == crate::harness::model::occurrences(
                    now,
                    category,
                    n + 1,
                ) by {
                crate::harness::model::lemma_occurrences_prefix(had, now, category, n);
                assert(before.stats.count(category) == crate::harness::model::occurrences(
                    had,
                    category,
                    n,
                ));
            }
        }
    }
}

} // verus!
