//! Classification of reports with one answer.

use crate::harness::model::{Elapsed, OutcomeCategory};
use crate::harness::parent::{describe_failure, failure, ChildStatus};
use crate::sat_harness::model::{
    result_label, CaseOutcome, CaseSpec, ChildReportKind, ExpectedResult,
};
use crate::strings::{trim_text, trimmed};
use crate::text::{joined, joined3};
use vstd::prelude::*;

verus! {

/// The text of a span of time for people.
pub uninterp spec fn duration_text(secs: u64, nanos: u32) -> Seq<char>;

/// `humantime::format_duration`: the text of a span of time for people. The text is only named.
#[verifier::external_body]
pub(crate) fn human_duration(secs: u64, nanos: u32) -> (text: String)
    requires
        nanos < 1_000_000_000,
    ensures
        text@ == duration_text(secs, nanos),
{
    humantime::format_duration(std::time::Duration::new(secs, nanos)).to_string()
}

/// The words for a wrong answer.
pub open spec fn mismatch(expected: ExpectedResult, source: Seq<char>, actual: ExpectedResult) -> Seq<
    char,
> {
    "expected "@ + result_label(expected) + " from "@ + source + ", got "@ + result_label(actual)
}

/// The outcome is that of a case that the solver answered.
pub open spec fn answered(
    outcome: CaseOutcome,
    case: CaseSpec,
    elapsed: Elapsed,
    actual: ExpectedResult,
) -> bool {
    &&& outcome.case == case
    &&& outcome.elapsed == elapsed
    &&& outcome.actual == Some(actual)
    &&& match case.expected {
        None => outcome.category == OutcomeCategory::NoOracle && outcome.detail is None,
        Some(expected) => if expected == actual {
            outcome.category == OutcomeCategory::Pass && outcome.detail is None
        } else {
            &&& outcome.category == OutcomeCategory::WrongAnswer
            &&& outcome.detail is Some
            &&& outcome.detail->0@ == mismatch(
                expected,
                match case.source {
                    Some(source) => source@,
                    None => "manifest"@,
                },
                actual,
            )
        },
    }
}

/// The outcome is that of a case that ended without an answer.
pub open spec fn unanswered(
    outcome: CaseOutcome,
    case: CaseSpec,
    elapsed: Elapsed,
    category: OutcomeCategory,
    detail: Seq<char>,
) -> bool {
    &&& outcome.case == case
    &&& outcome.elapsed == elapsed
    &&& outcome.actual is None
    &&& outcome.category == category
    &&& outcome.detail is Some
    &&& outcome.detail->0@ == detail
}

/// Creates one infrastructure error outcome.
pub fn harness_error(case: CaseSpec, elapsed: Elapsed, detail: String) -> (outcome: CaseOutcome)
    ensures
        unanswered(outcome, case, elapsed, OutcomeCategory::HarnessError, detail@),
{
    CaseOutcome {
        case,
        elapsed,
        category: OutcomeCategory::HarnessError,
        actual: None,
        detail: Some(detail),
    }
}

/// Creates the outcome of a case that ran out of time.
pub fn timeout_outcome(case: CaseSpec, elapsed: Elapsed, timeout: Elapsed) -> (outcome: CaseOutcome)
    requires
        timeout.wf(),
    ensures
        unanswered(
            outcome,
            case,
            elapsed,
            OutcomeCategory::Timeout,
            "timed out after "@ + duration_text(timeout.secs, timeout.nanos),
        ),
{
    let limit = human_duration(timeout.secs, timeout.nanos);
    CaseOutcome {
        case,
        elapsed,
        category: OutcomeCategory::Timeout,
        actual: None,
        detail: Some(joined("timed out after ", limit.as_str())),
    }
}

/// Classifies the answer to a case.
fn classify_answer(case: CaseSpec, elapsed: Elapsed, actual: ExpectedResult) -> (outcome: CaseOutcome)
    ensures
        answered(outcome, case, elapsed, actual),
{
    match case.expected {
        None => CaseOutcome {
            case,
            elapsed,
            category: OutcomeCategory::NoOracle,
            actual: Some(actual),
            detail: None,
        },
        Some(expected) => if expected == actual {
            CaseOutcome {
                case,
                elapsed,
                category: OutcomeCategory::Pass,
                actual: Some(actual),
                detail: None,
            }
        } else {
            let mut detail = joined3("expected ", expected.as_str(), " from ");
            match &case.source {
                Some(source) => detail.append(source.as_str()),
                None => detail.append("manifest"),
            }
            detail.append(", got ");
            detail.append(actual.as_str());
            CaseOutcome {
                case,
                elapsed,
                category: OutcomeCategory::WrongAnswer,
                actual: Some(actual),
                detail: Some(detail),
            }
        },
    }
}

/// The outcome is that of a structured child report.
pub open spec fn reported(
    outcome: CaseOutcome,
    case: CaseSpec,
    elapsed: Elapsed,
    report: ChildReportKind,
) -> bool {
    match report {
        ChildReportKind::Sat => answered(outcome, case, elapsed, ExpectedResult::Sat),
        ChildReportKind::Unsat => answered(outcome, case, elapsed, ExpectedResult::Unsat),
        ChildReportKind::ParseError(error) => unanswered(
            outcome,
            case,
            elapsed,
            OutcomeCategory::ParseError,
            trimmed(error@),
        ),
        ChildReportKind::InputError(error) => unanswered(
            outcome,
            case,
            elapsed,
            OutcomeCategory::HarnessError,
            error@,
        ),
    }
}

/// Maps a structured child report onto the final parent outcome categories.
pub fn classify_report(case: CaseSpec, elapsed: Elapsed, report: ChildReportKind) -> (outcome:
    CaseOutcome)
    ensures
        reported(outcome, case, elapsed, report),
{
    match report {
        ChildReportKind::Sat => classify_answer(case, elapsed, ExpectedResult::Sat),
        ChildReportKind::Unsat => classify_answer(case, elapsed, ExpectedResult::Unsat),
        ChildReportKind::ParseError(error) => {
            let detail = trim_text(error.as_str());
            CaseOutcome {
                case,
                elapsed,
                category: OutcomeCategory::ParseError,
                actual: None,
                detail: Some(detail),
            }
        },
        ChildReportKind::InputError(error) => harness_error(case, elapsed, error),
    }
}

/// The outcome is that of a child that ended.
pub open spec fn classified(
    outcome: CaseOutcome,
    case: CaseSpec,
    elapsed: Elapsed,
    status: ChildStatus,
    report: Option<Result<ChildReportKind, String>>,
    stderr: Seq<char>,
) -> bool {
    if !status.success {
        let (category, detail) = failure(status, stderr);
        unanswered(outcome, case, elapsed, category, detail)
    } else {
        match report {
            None => unanswered(
                outcome,
                case,
                elapsed,
                OutcomeCategory::HarnessError,
                "missing child report"@,
            ),
            Some(Err(error)) => unanswered(
                outcome,
                case,
                elapsed,
                OutcomeCategory::HarnessError,
                "invalid child report: "@ + error@,
            ),
            Some(Ok(report)) => reported(outcome, case, elapsed, report),
        }
    }
}

/// Classifies a completed child process into a stable harness outcome. The report is absent where the
/// child left none, and an error where it could not be read back.
pub fn classify_child_completion(
    case: CaseSpec,
    elapsed: Elapsed,
    status: ChildStatus,
    report: Option<Result<ChildReportKind, String>>,
    stderr: &str,
) -> (outcome: CaseOutcome)
    ensures
        classified(outcome, case, elapsed, status, report, stderr@),
{
    if !status.success {
        let (category, detail) = describe_failure(status, stderr);
        return CaseOutcome { case, elapsed, category, actual: None, detail: Some(detail) };
    }
    match report {
        None => harness_error(case, elapsed, "missing child report".to_owned()),
        Some(Err(error)) => {
            let detail = joined("invalid child report: ", error.as_str());
            harness_error(case, elapsed, detail)
        },
        Some(Ok(report)) => classify_report(case, elapsed, report),
    }
}

/// The roots that are scanned: those asked for, or else the fixture directory.
pub fn requested_roots(roots: Vec<String>) -> (result: Vec<String>)
    ensures
        roots@.len() > 0 ==> result == roots,
        roots@.len() == 0 ==> result@.len() == 1 && result@[0]@ == "test/fixture/sat"@,
{
    if roots.len() > 0 {
        return roots;
    }
    let mut result: Vec<String> = Vec::new();
    result.push("test/fixture/sat".to_owned());
    result
}

} // verus!
