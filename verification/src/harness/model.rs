//! Shared data structures used across harness modules.

use crate::telemetry::{Sample, Summary};
use crate::text::{decimal, decimal_text, joined, joined3, same_text};
use vstd::prelude::*;

verus! {

/// A span of time: whole seconds and additional nanoseconds.
#[derive(Debug, Clone, Copy, PartialEq, Eq, Structural)]
pub struct Elapsed {
    /// Whole seconds.
    pub secs: u64,
    /// Additional nanoseconds, fewer than a billion.
    pub nanos: u32,
}

impl Elapsed {
    /// The additional nanoseconds make up less than a second.
    pub open spec fn wf(self) -> bool {
        self.nanos < 1_000_000_000
    }

    /// The whole span in nanoseconds.
    pub open spec fn total(self) -> nat {
        self.secs as nat * 1_000_000_000 + self.nanos as nat
    }

    /// Returns the whole span in nanoseconds.
    pub fn as_nanos(self) -> (nanos: u128)
        ensures
            nanos == self.total(),
    {
        self.secs as u128 * 1_000_000_000 + self.nanos as u128
    }

    /// Returns whether this span is not shorter than another.
    pub fn at_least(self, other: Elapsed) -> (answer: bool)
        ensures
            answer == (self.total() >= other.total()),
    {
        self.as_nanos() >= other.as_nanos()
    }
}

/// One solver answer expected or produced for a single query.
#[derive(Debug, Clone, Copy, PartialEq, Eq, Hash, Structural)]
pub enum QueryAnswer {
    /// The query is satisfiable.
    Sat,
    /// The query is unsatisfiable.
    Unsat,
    /// The query expectation or solver response is unknown.
    Unknown,
}

/// The answer that a label stands for, or the error message.
pub open spec fn answer_labelled(text: Seq<char>) -> Result<QueryAnswer, Seq<char>> {
    if text == "sat"@ {
        Ok(QueryAnswer::Sat)
    } else if text == "unsat"@ {
        Ok(QueryAnswer::Unsat)
    } else if text == "unknown"@ {
        Ok(QueryAnswer::Unknown)
    } else {
        Err("unsupported query answer label: "@ + text)
    }
}

/// The name of an answer in details.
pub open spec fn answer_name(answer: QueryAnswer) -> Seq<char> {
    match answer {
        QueryAnswer::Sat => "Sat"@,
        QueryAnswer::Unsat => "Unsat"@,
        QueryAnswer::Unknown => "Unknown"@,
    }
}

impl QueryAnswer {
    /// Parses one SMT-LIB answer token.
    pub fn parse(text: &str) -> (result: Result<Self, String>)
        ensures
            match answer_labelled(text@) {
                Ok(answer) => result == Ok::<Self, String>(answer),
                Err(error) => result is Err && result->Err_0@ == error,
            },
    {
        if same_text(text, "sat") {
            Ok(QueryAnswer::Sat)
        } else if same_text(text, "unsat") {
            Ok(QueryAnswer::Unsat)
        } else if same_text(text, "unknown") {
            Ok(QueryAnswer::Unknown)
        } else {
            Err(joined("unsupported query answer label: ", text))
        }
    }

    /// Returns the name of this answer in details.
    pub fn name(self) -> (name: &'static str)
        ensures
            name@ == answer_name(self),
    {
        match self {
            QueryAnswer::Sat => "Sat",
            QueryAnswer::Unsat => "Unsat",
            QueryAnswer::Unknown => "Unknown",
        }
    }
}

/// One expectations rule.
#[derive(Debug, PartialEq, Eq)]
pub struct ExpectationRule {
    /// The path prefix, relative to the manifest directory.
    pub prefix: String,
    /// The expected solver answer for matching paths.
    pub expected: QueryAnswer,
    /// A short human-readable source label.
    pub source: String,
}

/// One expected answer attached to one `check-sat` call.
#[derive(Debug, Clone, Copy, PartialEq, Eq, Hash, Structural)]
pub struct ExpectedQueryResult {
    /// Zero-based query index within the benchmark trace.
    pub query_index: usize,
    /// Expected answer for that query.
    pub expected: QueryAnswer,
}

/// The stable case metadata kept in saved harness result files.
#[derive(Debug, Clone, PartialEq, Eq)]
pub struct CaseRecord {
    /// The stable manifest-relative key used when comparing saved runs.
    pub key: String,
    /// The file size in bytes used to sort long cases first.
    pub bytes: u64,
    /// The SMT-LIB logic declared by the case, when precomputed.
    pub logic: Option<String>,
    /// The number of `check-sat` queries discovered in the trace, when precomputed.
    pub query_count: Option<usize>,
}

impl CaseRecord {
    /// Returns the stable key used when sorting or comparing saved runs.
    pub fn comparison_key(&self) -> (key: &str)
        ensures
            key@ == self.key@,
    {
        self.key.as_str()
    }
}

/// A benchmark case discovered on disk and ready to execute.
#[derive(Debug, PartialEq, Eq)]
pub struct DiscoveredCase {
    /// The canonical absolute file path passed to the child process.
    pub absolute_path: String,
    /// The stable case metadata that survives into saved result files.
    pub record: CaseRecord,
    /// Expected answers for each `check-sat`, in order.
    pub expected_queries: Vec<ExpectedQueryResult>,
}

impl DiscoveredCase {
    /// Builds one discovered runtime case from its executable path and saved metadata.
    pub fn new(
        absolute_path: String,
        record: CaseRecord,
        expected_queries: Vec<ExpectedQueryResult>,
    ) -> (case: Self)
        ensures
            case.absolute_path == absolute_path,
            case.record == record,
            case.expected_queries == expected_queries,
    {
        DiscoveredCase { absolute_path, record, expected_queries }
    }

    /// Returns the file size used for discovery ordering.
    pub fn bytes(&self) -> (bytes: u64)
        ensures
            bytes == self.record.bytes,
    {
        self.record.bytes
    }

    /// Consumes the runtime case and returns the persistent case metadata.
    pub fn into_record(self) -> (record: CaseRecord)
        ensures
            record == self.record,
    {
        self.record
    }
}

/// One complete query sequence returned by the child process.
#[derive(Debug, PartialEq, Eq)]
pub struct CompletedQueryRun {
    /// Actual answers returned by the solver, in query order.
    pub actual_answers: Vec<QueryAnswer>,
    /// Wall-clock time spent inside the child solver boundary.
    pub solver_elapsed: Elapsed,
}

/// All structured outcomes that can be reported by the child process.
#[derive(Debug, PartialEq, Eq)]
pub enum ChildReport {
    /// The solver completed the trace and returned one answer per query.
    Completed(CompletedQueryRun),
    /// The SMT-LIB input could not be parsed.
    ParseError(String),
    /// The case file could not be loaded from disk.
    InputError(String),
    /// The interactive solver protocol was violated.
    ProtocolError(String),
}

/// One per-query outcome stored in saved harness artifacts.
#[derive(Debug, Clone, Copy, PartialEq, Eq, Structural)]
pub struct QueryOutcome {
    /// Zero-based query index within the trace.
    pub query_index: usize,
    /// Expected answer for this query.
    pub expected: QueryAnswer,
    /// Actual solver answer for this query.
    pub actual: QueryAnswer,
    /// Elapsed time since case start when the query completed.
    pub elapsed: Elapsed,
    /// The classified query-level category.
    pub category: OutcomeCategory,
}

/// Saved solver telemetry for one executed benchmark case.
#[derive(Debug, PartialEq, Eq)]
pub struct CaseTelemetry {
    /// Aggregate metrics derived from the raw periodic samples.
    pub summary: Summary,
    /// The raw periodic samples, kept only when asked for.
    pub samples: Vec<Sample>,
}

/// One completed case outcome received by the parent process.
#[derive(Debug, PartialEq, Eq)]
pub struct CaseOutcome {
    /// The benchmark metadata.
    pub case: CaseRecord,
    /// The wall-clock runtime measured by the parent process.
    pub total_elapsed: Elapsed,
    /// The child-measured solver runtime, excluding parent subprocess supervision.
    pub solver_elapsed: Option<Elapsed>,
    /// The classified case-level result category.
    pub category: OutcomeCategory,
    /// One saved query outcome for each completed `check-sat`.
    pub queries: Vec<QueryOutcome>,
    /// An optional detail string for failures and summaries.
    pub detail: Option<String>,
    /// Optional solver telemetry aggregated from periodic samples.
    pub telemetry: Option<CaseTelemetry>,
}

impl CaseOutcome {
    /// Returns the elapsed time users should see for one solver outcome.
    pub fn displayed_elapsed(&self) -> (elapsed: Elapsed)
        ensures
            elapsed == match self.solver_elapsed {
                Some(elapsed) => elapsed,
                None => self.total_elapsed,
            },
    {
        match self.solver_elapsed {
            Some(elapsed) => elapsed,
            None => self.total_elapsed,
        }
    }
}

/// The top-level result category used in summaries and exit codes.
#[derive(Debug, Clone, Copy, PartialEq, Eq, Hash, Structural)]
pub enum OutcomeCategory {
    /// The solver answer matched the oracle.
    Pass,
    /// The solver finished, but the case had no oracle answer.
    NoOracle,
    /// At least one query returned the wrong answer.
    WrongAnswer,
    /// The input trace was rejected by the parser.
    ParseError,
    /// The child exceeded the configured timeout.
    Timeout,
    /// The child process panicked.
    Panic,
    /// The child process was killed by a signal.
    Killed,
    /// The harness itself encountered an infrastructure error.
    HarnessError,
}

/// The length of the longest label.
pub const LABEL_WIDTH: usize = 7;

/// The short uppercase label of a category.
pub open spec fn category_label(category: OutcomeCategory) -> Seq<char> {
    match category {
        OutcomeCategory::Pass => "PASS"@,
        OutcomeCategory::NoOracle => "DONE"@,
        OutcomeCategory::WrongAnswer => "WRONG"@,
        OutcomeCategory::ParseError => "PARSE"@,
        OutcomeCategory::Timeout => "TIMEOUT"@,
        OutcomeCategory::Panic => "PANIC"@,
        OutcomeCategory::Killed => "KILLED"@,
        OutcomeCategory::HarnessError => "ERROR"@,
    }
}

/// No label is longer than the label width, and one is as long.
pub proof fn lemma_label_width()
    ensures
        forall|category: OutcomeCategory| #[trigger] category_label(category).len() <= LABEL_WIDTH,
        category_label(OutcomeCategory::Timeout).len() == LABEL_WIDTH,
{
    reveal_strlit("PASS");
    reveal_strlit("DONE");
    reveal_strlit("WRONG");
    reveal_strlit("PARSE");
    reveal_strlit("TIMEOUT");
    reveal_strlit("PANIC");
    reveal_strlit("KILLED");
    reveal_strlit("ERROR");
}

impl OutcomeCategory {
    /// The category fails the overall run.
    pub open spec fn fails(self) -> bool {
        self != OutcomeCategory::Pass && self != OutcomeCategory::NoOracle
    }

    /// Returns `true` when the category should fail the overall run.
    pub fn is_failure(self) -> (answer: bool)
        ensures
            answer == self.fails(),
    {
        match self {
            OutcomeCategory::Pass => false,
            OutcomeCategory::NoOracle => false,
            _ => true,
        }
    }

    /// Returns the short uppercase label used in the terminal.
    pub fn label(self) -> (label: &'static str)
        ensures
            label@ == category_label(self),
    {
        match self {
            OutcomeCategory::Pass => "PASS",
            OutcomeCategory::NoOracle => "DONE",
            OutcomeCategory::WrongAnswer => "WRONG",
            OutcomeCategory::ParseError => "PARSE",
            OutcomeCategory::Timeout => "TIMEOUT",
            OutcomeCategory::Panic => "PANIC",
            OutcomeCategory::Killed => "KILLED",
            OutcomeCategory::HarnessError => "ERROR",
        }
    }
}

/// Aggregate counters shown in the progress bar and final summary.
#[derive(Debug, Clone, Copy, PartialEq, Eq, Structural)]
pub struct OutcomeStats {
    /// The number of completed cases.
    pub done: usize,
    /// The number of passing cases with an oracle answer.
    pub pass: usize,
    /// The number of completed cases without an oracle answer.
    pub no_oracle: usize,
    /// The number of wrong-answer cases.
    pub wrong: usize,
    /// The number of parse-error cases.
    pub parse: usize,
    /// The number of timed-out cases.
    pub timeout: usize,
    /// The number of panic cases.
    pub panic: usize,
    /// The number of signal-killed children.
    pub killed: usize,
    /// The number of harness infrastructure failures.
    pub harness: usize,
}

/// How many of the first `n` categories are this one.
pub open spec fn occurrences(categories: Seq<OutcomeCategory>, category: OutcomeCategory, n: nat) -> nat
    decreases n,
{
    if n == 0 {
        0
    } else {
        occurrences(categories, category, (n - 1) as nat) + if categories[n - 1] == category {
            1nat
        } else {
            0
        }
    }
}

/// Only the first `n` categories count.
pub proof fn lemma_occurrences_prefix(
    a: Seq<OutcomeCategory>,
    b: Seq<OutcomeCategory>,
    category: OutcomeCategory,
    n: nat,
)
    requires
        n <= a.len(),
        n <= b.len(),
        forall|i: int| 0 <= i < n ==> (#[trigger] a[i]) == b[i],
    ensures
        occurrences(a, category, n) == occurrences(b, category, n),
    decreases n,
{
    if n > 0 {
        lemma_occurrences_prefix(a, b, category, (n - 1) as nat);
        assert(a[n - 1] == b[n - 1]);
    }
}

impl OutcomeStats {
    /// The counter of one category.
    pub open spec fn count(self, category: OutcomeCategory) -> usize {
        match category {
            OutcomeCategory::Pass => self.pass,
            OutcomeCategory::NoOracle => self.no_oracle,
            OutcomeCategory::WrongAnswer => self.wrong,
            OutcomeCategory::ParseError => self.parse,
            OutcomeCategory::Timeout => self.timeout,
            OutcomeCategory::Panic => self.panic,
            OutcomeCategory::Killed => self.killed,
            OutcomeCategory::HarnessError => self.harness,
        }
    }

    /// The number of failing outcomes.
    pub open spec fn failures(self) -> nat {
        (self.wrong + self.parse + self.timeout + self.panic + self.killed + self.harness) as nat
    }

    /// Every completed case is counted once in its category.
    pub open spec fn balanced(self) -> bool {
        self.done == self.pass + self.no_oracle + self.failures()
    }

    /// The counters are those of the first `n` recorded outcomes.
    pub open spec fn tallies(self, categories: Seq<OutcomeCategory>, n: nat) -> bool {
        &&& self.done == n
        &&& forall|category: OutcomeCategory| #[trigger]
            self.count(category) == occurrences(categories, category, n)
    }

    /// Returns counters at zero.
    pub fn zero() -> (stats: Self)
        ensures
            stats.balanced(),
            stats.done == 0,
            stats.failures() == 0,
            forall|category: OutcomeCategory| #[trigger] stats.count(category) == 0,
    {
        OutcomeStats {
            done: 0,
            pass: 0,
            no_oracle: 0,
            wrong: 0,
            parse: 0,
            timeout: 0,
            panic: 0,
            killed: 0,
            harness: 0,
        }
    }

    /// Records one completed case outcome.
    pub fn record(&mut self, category: OutcomeCategory)
        requires
            old(self).balanced(),
            old(self).done < usize::MAX,
        ensures
            final(self).balanced(),
            final(self).done == old(self).done + 1,
            forall|c: OutcomeCategory| #[trigger]
                final(self).count(c) == old(self).count(c) + if c == category {
                    1int
                } else {
                    0
                },
    {
        self.done = self.done + 1;
        match category {
            OutcomeCategory::Pass => {
                self.pass = self.pass + 1;
            },
            OutcomeCategory::NoOracle => {
                self.no_oracle = self.no_oracle + 1;
            },
            OutcomeCategory::WrongAnswer => {
                self.wrong = self.wrong + 1;
            },
            OutcomeCategory::ParseError => {
                self.parse = self.parse + 1;
            },
            OutcomeCategory::Timeout => {
                self.timeout = self.timeout + 1;
            },
            OutcomeCategory::Panic => {
                self.panic = self.panic + 1;
            },
            OutcomeCategory::Killed => {
                self.killed = self.killed + 1;
            },
            OutcomeCategory::HarnessError => {
                self.harness = self.harness + 1;
            },
        }
    }

    /// Returns `true` when at least one failing outcome was recorded.
    pub fn has_failures(&self) -> (answer: bool)
        ensures
            answer == (self.failures() > 0),
    {
        self.wrong > 0 || self.parse > 0 || self.timeout > 0 || self.panic > 0 || self.killed > 0
            || self.harness > 0
    }
}

impl Default for OutcomeStats {
    fn default() -> (stats: Self)
        ensures
            stats.balanced(),
            stats.done == 0,
            forall|category: OutcomeCategory| #[trigger] stats.count(category) == 0,
    {
        OutcomeStats::zero()
    }
}

/// A run has failures exactly when one of its outcomes fails.
pub proof fn lemma_failures(stats: OutcomeStats, categories: Seq<OutcomeCategory>, n: nat)
    requires
        stats.tallies(categories, n),
    ensures
        stats.failures() > 0 <==> exists|i: int| 0 <= i < n && (#[trigger] categories[i]).fails(),
{
    if exists|i: int| 0 <= i < n && (#[trigger] categories[i]).fails() {
        let i = choose|i: int| 0 <= i < n && (#[trigger] categories[i]).fails();
        lemma_occurs(categories, i, n);
        assert(stats.count(categories[i]) == occurrences(categories, categories[i], n));
    }
    if stats.failures() > 0 {
        let c = if stats.wrong > 0 {
            OutcomeCategory::WrongAnswer
        } else if stats.parse > 0 {
            OutcomeCategory::ParseError
        } else if stats.timeout > 0 {
            OutcomeCategory::Timeout
        } else if stats.panic > 0 {
            OutcomeCategory::Panic
        } else if stats.killed > 0 {
            OutcomeCategory::Killed
        } else {
            OutcomeCategory::HarnessError
        };
        assert(stats.count(c) == occurrences(categories, c, n));
        let i = lemma_found(categories, c, n);
        assert(categories[i].fails());
    }
}

proof fn lemma_occurs(categories: Seq<OutcomeCategory>, i: int, n: nat)
    requires
        0 <= i < n,
    ensures
        occurrences(categories, categories[i], n) > 0,
    decreases n,
{
    if i < n - 1 {
        lemma_occurs(categories, i, (n - 1) as nat);
    }
}

proof fn lemma_found(categories: Seq<OutcomeCategory>, c: OutcomeCategory, n: nat) -> (i: int)
    requires
        occurrences(categories, c, n) > 0,
    ensures
        0 <= i < n,
        categories[i] == c,
    decreases n,
{
    if categories[n - 1] == c {
        n - 1
    } else {
        lemma_found(categories, c, (n - 1) as nat)
    }
}

/// The file format version of saved run results.
pub const FORMAT_VERSION: u32 = 3;

/// The final parent-process summary.
#[derive(Debug, PartialEq, Eq)]
pub struct RunSummary {
    /// The file format version used for saved harness run results.
    pub format_version: u32,
    /// The benchmark roots that were scanned for this run.
    pub roots: Vec<String>,
    /// The number of workers that actually executed the run.
    pub jobs: usize,
    /// The configured per-case timeout.
    pub timeout: Elapsed,
    /// The end-to-end wall-clock time for the full run.
    pub total_elapsed: Elapsed,
    /// One saved outcome for each discovered case, sorted by comparison key.
    pub cases: Vec<CaseOutcome>,
    /// The final counters for all outcomes.
    pub stats: OutcomeStats,
}

/// The message for an unsupported file format.
pub open spec fn bad_version(version: nat) -> Seq<char> {
    "unsupported saved result format version "@ + decimal_text(version) + " (expected "@
        + decimal_text(FORMAT_VERSION as nat) + ")"@
}

impl RunSummary {
    /// Validates that a deserialized summary uses a supported file format.
    pub fn validate(&self) -> (result: Result<(), String>)
        ensures
            result is Ok <==> self.format_version == FORMAT_VERSION,
            result matches Err(error) ==> error@ == bad_version(self.format_version as nat),
    {
        if self.format_version == FORMAT_VERSION {
            return Ok(());
        }
        let found = decimal(self.format_version as u64);
        let start = joined3(
            "unsupported saved result format version ",
            found.as_str(),
            " (expected ",
        );
        let wanted = decimal(FORMAT_VERSION as u64);
        Err(joined3(start.as_str(), wanted.as_str(), ")"))
    }
}

} // verus!
