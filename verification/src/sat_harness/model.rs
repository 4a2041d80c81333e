//! Cases and reports with one answer each.

use crate::harness::model::{category_label, Elapsed, OutcomeCategory};
use crate::text::{joined, same_text};
use vstd::prelude::*;

verus! {

/// One expected solver answer loaded from an expectations manifest.
#[derive(Debug, Clone, Copy, PartialEq, Eq, Hash, Structural)]
pub enum ExpectedResult {
    /// The case is expected to be satisfiable.
    Sat,
    /// The case is expected to be unsatisfiable.
    Unsat,
}

/// The label of an expected answer.
pub open spec fn result_label(result: ExpectedResult) -> Seq<char> {
    match result {
        ExpectedResult::Sat => "sat"@,
        ExpectedResult::Unsat => "unsat"@,
    }
}

impl ExpectedResult {
    /// Parses a manifest token into an expected-answer label.
    pub fn parse(text: &str) -> (result: Result<Self, String>)
        ensures
            match result {
                Ok(expected) => text@ == result_label(expected),
                Err(error) => {
                    &&& forall|expected: ExpectedResult| text@ != #[trigger] result_label(expected)
                    &&& error@ == "unsupported expectation label: "@ + text@
                },
            },
    {
        if same_text(text, "sat") {
            Ok(ExpectedResult::Sat)
        } else if same_text(text, "unsat") {
            Ok(ExpectedResult::Unsat)
        } else {
            Err(joined("unsupported expectation label: ", text))
        }
    }

    /// Returns the lowercase display label used in the terminal.
    pub fn as_str(self) -> (label: &'static str)
        ensures
            label@ == result_label(self),
    {
        match self {
            ExpectedResult::Sat => "sat",
            ExpectedResult::Unsat => "unsat",
        }
    }
}

/// No two answers share a label.
pub proof fn lemma_labels_differ()
    ensures
        result_label(ExpectedResult::Sat) != result_label(ExpectedResult::Unsat),
{
    reveal_strlit("sat");
    reveal_strlit("unsat");
    assert("sat"@.len() == 3);
    assert("unsat"@.len() == 5);
}

/// A benchmark case discovered on disk.
#[derive(Debug, PartialEq, Eq)]
pub struct CaseSpec {
    /// The canonical absolute file path passed to the child process.
    pub absolute_path: String,
    /// The path displayed in progress output and summaries.
    pub display_path: String,
    /// The file size in bytes used to sort long cases first.
    pub bytes: u64,
    /// The optional oracle answer for correctness checking.
    pub expected: Option<ExpectedResult>,
    /// Where the oracle answer comes from.
    pub source: Option<String>,
}

/// All structured outcomes that can be reported by the child process.
#[derive(Debug, PartialEq, Eq)]
pub enum ChildReportKind {
    /// The solver returned `SAT`.
    Sat,
    /// The solver returned `UNSAT`.
    Unsat,
    /// The input could not be parsed.
    ParseError(String),
    /// The case file could not be loaded from disk.
    InputError(String),
}

/// One completed case outcome received by the parent process.
#[derive(Debug, PartialEq, Eq)]
pub struct CaseOutcome {
    /// The benchmark metadata.
    pub case: CaseSpec,
    /// The wall-clock runtime measured by the parent process.
    pub elapsed: Elapsed,
    /// The classified result category.
    pub category: OutcomeCategory,
    /// The solver's answer, when it gave one.
    pub actual: Option<ExpectedResult>,
    /// An optional detail string for failures and summaries.
    pub detail: Option<String>,
}

/// The short uppercase label of a category; a timeout has a shorter one here.
pub open spec fn short_label_text(category: OutcomeCategory) -> Seq<char> {
    if category == OutcomeCategory::Timeout {
        "TIME"@
    } else {
        category_label(category)
    }
}

/// Returns the short uppercase label of a category.
pub fn short_label(category: OutcomeCategory) -> (label: &'static str)
    ensures
        label@ == short_label_text(category),
{
    if category == OutcomeCategory::Timeout {
        "TIME"
    } else {
        category.label()
    }
}

} // verus!
