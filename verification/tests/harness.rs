//! Tests of the benchmark harness.

use std::io::Write;
use std::time::Duration;

use mysolver::harness::benchmark::{
    duration_from_nanos, percentile, target_error, BenchmarkSummary, ElapsedDistribution,
};
use mysolver::harness::case_io::case_text;
use mysolver::harness::cases::{build_case, order_cases, push_case, read_case};
use mysolver::harness::child::{classify_output, expected_count, solved_report};
use mysolver::harness::cli::{should_print_outcome, OutputMode, OutputModeArgs};
use mysolver::harness::compare::{
    changes_line, classify_changes, counts_line, format_category_change, format_changed_case,
    format_detail_change, format_elapsed_change, format_missing_case, outcomes_match, run_header,
    section_footer, section_header, ChangedCase, RunComparison,
};
use mysolver::harness::discover::{
    is_supported_case, lookup_expectation, merge_expectations, parse_expectation_rules,
    parse_trace_metadata, query_count, TraceMetadata,
};
use mysolver::harness::model::{
    CaseOutcome, CaseRecord, CaseTelemetry, ChildReport, CompletedQueryRun, DiscoveredCase, Elapsed,
    ExpectedQueryResult, OutcomeCategory, OutcomeStats, QueryAnswer, RunSummary, FORMAT_VERSION,
    LABEL_WIDTH,
};
use mysolver::harness::parent::{
    case_telemetry, classify_child_completion, classify_completed_run, classify_report,
    next_wait, order_outcomes, plan_run, requested_roots, running_count, sample_error, sample_rows,
    summarize_run, worker_count, ChildStatus, Polled, RunProgress, WaitAction,
};
use mysolver::harness::render::{
    failures_line, format_outcome, format_telemetry_summary,
    progress_message, totals_line,
};
use mysolver::sat_harness::model::{CaseOutcome as SingleOutcome, CaseSpec};
use mysolver::sat_harness::render::format_outcome as format_single_outcome;
use mysolver::qfuf::script::run_script;
use mysolver::telemetry::{
    Counters, EufCounters, EufGauges, EufSummary, Gauges, Sample, SatCounters, SatGauges, SatSummary,
    Summary,
};

fn millis(n: u64) -> Elapsed {
    Elapsed { secs: n / 1000, nanos: (n % 1000) as u32 * 1_000_000 }
}

/// Formats a duration using a short, benchmark-oriented representation.
fn format_duration(elapsed: Elapsed) -> String {
    let duration = Duration::new(elapsed.secs, elapsed.nanos);
    let seconds = duration.as_secs_f64();
    if seconds >= 60.0 {
        format!("{:.1}m", seconds / 60.0)
    } else if seconds >= 1.0 {
        format!("{seconds:.2}s")
    } else {
        format!("{:.1}ms", seconds * 1_000.0)
    }
}

#[test]
fn percentile_uses_nearest_rank() {
    let timings = [millis(1), millis(2), millis(3), millis(4)];
    assert_eq!(percentile(&timings, 25), millis(1));
    assert_eq!(percentile(&timings, 50), millis(2));
    assert_eq!(percentile(&timings, 90), millis(4));
}

#[test]
fn distribution_sorts_and_summarizes_timings() {
    let mut timings = vec![millis(4), millis(1), millis(3), millis(2)];
    let distribution = ElapsedDistribution::new(&mut timings).expect("distribution");
    assert_eq!(timings, vec![millis(1), millis(2), millis(3), millis(4)]);
    assert_eq!(distribution.p25, millis(1));
    assert_eq!(distribution.p75, millis(3));
    assert_eq!(distribution.p90, millis(4));
    assert_eq!(distribution.p99, millis(4));
    assert_eq!(distribution.samples, 4);
    assert_eq!(distribution.min, millis(1));
    assert_eq!(distribution.median, millis(2));
    assert_eq!(distribution.max, millis(4));
    assert_eq!(distribution.mean, Elapsed { secs: 0, nanos: 2_500_000 });
}

#[test]
fn duration_from_nanos_keeps_remainder() {
    assert_eq!(duration_from_nanos(1_234_567_890), Elapsed { secs: 1, nanos: 234_567_890 });
}

#[test]
fn benchmarks_time_only_successful_runs() {
    let measured = vec![
        sample_outcome("a", OutcomeCategory::Pass, millis(3), None),
        sample_outcome("a", OutcomeCategory::Timeout, millis(900), None),
        sample_outcome("a", OutcomeCategory::NoOracle, millis(1), None),
    ];
    let summary = BenchmarkSummary::new(measured, millis(904));
    assert!(summary.has_failures());
    assert_eq!(summary.successful(), 2);
    let distribution = summary.distribution.expect("distribution");
    assert_eq!(distribution.samples, 2);
    assert_eq!(distribution.max, millis(3));
    assert!(BenchmarkSummary::failed_warmup().has_failures());
    assert_eq!(ElapsedDistribution::new(&mut vec![]), None);
    assert_eq!(
        target_error(2),
        "benchmark target must resolve to exactly one supported case, found 2"
    );
}

fn flags(list: &[&str]) -> OutputModeArgs {
    OutputModeArgs {
        all: list.contains(&"--all"),
        fail_only: list.contains(&"--fail-only"),
        terse: list.contains(&"--terse"),
    }
}

#[test]
fn run_defaults_to_failure_only_output() {
    assert_eq!(flags(&[]).mode(), OutputMode::FailOnly);
    assert_eq!(OutputModeArgs::default().mode(), OutputMode::default());
}

#[test]
fn run_accepts_each_output_mode_flag() {
    for (flag, expected_mode) in [
        ("--all", OutputMode::All),
        ("--fail-only", OutputMode::FailOnly),
        ("--terse", OutputMode::Terse),
    ] {
        let args = flags(&[flag]);
        assert!(args.is_exclusive());
        assert_eq!(args.mode(), expected_mode, "flag {flag}");
    }
}

#[test]
fn run_rejects_multiple_output_mode_flags() {
    assert!(!flags(&["--all", "--terse"]).is_exclusive());
}

#[test]
fn default_output_filters_successes() {
    assert!(!should_print_outcome(OutputMode::FailOnly, OutcomeCategory::Pass));
    assert!(should_print_outcome(OutputMode::FailOnly, OutcomeCategory::WrongAnswer));
}

#[test]
fn verbose_output_prints_every_outcome() {
    assert!(should_print_outcome(OutputMode::All, OutcomeCategory::Pass));
    assert!(should_print_outcome(OutputMode::All, OutcomeCategory::NoOracle));
}

#[test]
fn terse_output_prints_nothing() {
    assert!(!should_print_outcome(OutputMode::Terse, OutcomeCategory::Pass));
    assert!(!should_print_outcome(OutputMode::Terse, OutcomeCategory::WrongAnswer));
}

#[test]
fn outcomes_ignore_elapsed_time() {
    let left = sample_outcome("case.cnf", OutcomeCategory::Pass, millis(1000), None);
    let right = sample_outcome("case.cnf", OutcomeCategory::Pass, millis(2000), None);
    assert!(outcomes_match(&left, &right));
}

#[test]
fn run_comparison_classifies_differences() {
    let left = sample_summary(vec![
        sample_outcome("same.cnf", OutcomeCategory::Pass, millis(1000), None),
        sample_outcome(
            "changed.cnf",
            OutcomeCategory::WrongAnswer,
            millis(1000),
            Some("expected sat, got unsat"),
        ),
        sample_outcome("left-only.cnf", OutcomeCategory::Pass, millis(1000), None),
    ]);
    let right = sample_summary(vec![
        sample_outcome("same.cnf", OutcomeCategory::Pass, millis(2000), None),
        sample_outcome("changed.cnf", OutcomeCategory::Pass, millis(1000), None),
        sample_outcome("right-only.cnf", OutcomeCategory::Pass, millis(1000), None),
    ]);

    let comparison = RunComparison::build(&left, &right);
    assert_eq!(comparison.identical, 1);
    assert_eq!(comparison.changed.len(), 1);
    assert_eq!(comparison.only_left.len(), 1);
    assert_eq!(comparison.only_right.len(), 1);
    assert!(!comparison.is_match());
    assert_eq!(comparison.only_left[0].case.comparison_key(), "left-only.cnf");
    assert_eq!(comparison.only_right[0].case.comparison_key(), "right-only.cnf");
    assert_eq!(classify_changes(&comparison.changed), (1, 0, 0));
    assert_eq!(
        counts_line(&comparison),
        " shared 2 | identical 1 | changed 1 | only-left 1 | only-right 1"
    );
    assert!(RunComparison::build(&left, &left).is_match());
    let counted = comparison.identical + comparison.changed.len();
    assert_eq!(counted + comparison.only_left.len(), left.cases.len());
    assert_eq!(counted + comparison.only_right.len(), right.cases.len());
    let mirror = RunComparison::build(&right, &left);
    assert_eq!(mirror.identical, comparison.identical);
    assert_eq!(mirror.changed.len(), comparison.changed.len());
    assert_eq!(mirror.only_left[0].case.comparison_key(), "right-only.cnf");
    assert_eq!(mirror.only_right[0].case.comparison_key(), "left-only.cnf");
}

#[test]
fn the_last_of_several_cases_with_one_key_counts() {
    let left = sample_summary(vec![
        sample_outcome("b", OutcomeCategory::Pass, millis(1), None),
        sample_outcome("a", OutcomeCategory::Panic, millis(1), None),
        sample_outcome("a", OutcomeCategory::Pass, millis(1), None),
    ]);
    let right = sample_summary(vec![
        sample_outcome("a", OutcomeCategory::Pass, millis(1), None),
        sample_outcome("b", OutcomeCategory::Killed, millis(1), None),
    ]);
    let comparison = RunComparison::build(&left, &right);
    assert_eq!(comparison.identical, 1);
    assert_eq!(comparison.changed.len(), 1);
    assert_eq!(comparison.changed[0].key, "b");
    assert_eq!(classify_changes(&comparison.changed), (0, 1, 0));
    assert_eq!(changes_line((0, 1, 0)), " improvement 0 | regression 1 | lateral 0");
}

#[test]
fn format_missing_case_renders_complete_paths_and_omits_empty_detail_separator() {
    let outcome = sample_outcome(
        "cases/satlib/instance-group/very-long-case-name.cnf.gz",
        OutcomeCategory::WrongAnswer,
        millis(42),
        None,
    );
    let rendered = format_missing_case(&outcome, &format_duration(outcome.displayed_elapsed()));
    assert!(rendered.contains("cases/satlib/instance-group/very-long-case-name.cnf.gz"));
    assert!(!rendered.contains("::"));
}

#[test]
fn format_changed_case_omits_redundant_separators() {
    let left = sample_outcome("fixture/example.cnf", OutcomeCategory::Pass, millis(1000), None);
    let right = sample_outcome("fixture/example.cnf", OutcomeCategory::Pass, millis(2000), None);
    let rendered = format_changed_case(
        &ChangedCase { key: "fixture/example.cnf", left: &left, right: &right },
        &format_duration(left.displayed_elapsed()),
        &format_duration(right.displayed_elapsed()),
    );
    assert!(rendered.contains("PASS"));
    assert!(rendered.contains("1.00s"));
    assert!(rendered.contains("2.00s"));
    assert!(!rendered.contains("PASS -> PASS"));
    assert!(!rendered.contains("::"));
}

#[test]
fn comparison_lines_have_exact_texts() {
    assert_eq!(
        format_category_change(OutcomeCategory::Pass, OutcomeCategory::Timeout),
        "PASS    -> TIMEOUT"
    );
    assert_eq!(format_elapsed_change("1.00s", "1.00s"), " 1.00s");
    assert_eq!(format_elapsed_change("1.00s", "2.00s"), " 1.00s ->  2.00s");
    assert_eq!(format_detail_change(&None, &None), "");
    assert_eq!(format_detail_change(&Some("x".to_string()), &None), " :: x -> -");
    assert_eq!(section_header(3), " 3");
    assert_eq!(section_header(1234), " 1,234 (showing up to 20)");
    assert_eq!(section_footer(20), None);
    assert_eq!(section_footer(1234), Some("    ... 1,214 more".to_string()));
    let summary = sample_summary(vec![sample_outcome("a", OutcomeCategory::Panic, millis(1), None)]);
    assert_eq!(
        run_header("left", &summary, "3.00s", "30.00s"),
        " left   total 1 | pass 0 | no-oracle 0 | fail 1 | elapsed 3.00s | jobs 1 | timeout 30.00s"
    );
}

fn sample_outcome(
    key: &str,
    category: OutcomeCategory,
    elapsed: Elapsed,
    detail: Option<&str>,
) -> CaseOutcome {
    CaseOutcome {
        case: CaseRecord {
            key: key.to_string(),
            bytes: 1,
            logic: Some("QF_UF".to_string()),
            query_count: Some(1),
        },
        total_elapsed: elapsed,
        solver_elapsed: None,
        category,
        queries: Vec::new(),
        detail: detail.map(str::to_string),
        telemetry: None,
    }
}

fn sample_summary(cases: Vec<CaseOutcome>) -> RunSummary {
    let mut stats = OutcomeStats::default();
    for case in &cases {
        stats.record(case.category);
    }
    RunSummary {
        format_version: FORMAT_VERSION,
        roots: vec!["test/fixture/sat".to_string()],
        jobs: 1,
        timeout: millis(30_000),
        total_elapsed: millis(3000),
        cases,
        stats,
    }
}

#[test]
fn parse_trace_metadata_tracks_logic_and_pending_status() {
    let metadata = parse_trace_metadata(
        r#"
        ; Ignore comments and nested check-sat text.
        (set-info :notes "quoted ; comment (check-sat)")
        (set-logic QF_UF)
        (push 1)
        (set-info :status sat)
        (assert (= |symbol with spaces| |symbol with spaces|))
        (check-sat)
        (set-info :status unsat)
        (check-sat)
        (check-sat)
        "#,
    )
    .expect("parse metadata");
    assert_eq!(metadata.logic.as_deref(), Some("QF_UF"));
    assert_eq!(
        metadata.expected_queries.iter().map(|query| query.expected).collect::<Vec<_>>(),
        vec![QueryAnswer::Sat, QueryAnswer::Unsat, QueryAnswer::Unknown]
    );
}

#[test]
fn parse_trace_metadata_ignores_non_flat_top_level_commands() {
    let metadata =
        parse_trace_metadata("(set-info (:status sat)) (check-sat)").expect("parse metadata");
    assert_eq!(metadata.expected_queries.len(), 1);
    assert_eq!(metadata.expected_queries[0].expected, QueryAnswer::Unknown);
}

#[test]
fn query_count_counts_each_top_level_check_sat() {
    let count =
        query_count("(check-sat) foo (check-sat) (assert (check-sat))").expect("count queries");
    assert_eq!(count, 2);
}

#[test]
fn parse_trace_metadata_rejects_unbalanced_or_unterminated_input() {
    assert!(parse_trace_metadata("(check-sat").is_err());
    assert!(parse_trace_metadata(r#"(set-info :notes "oops)"#).is_err());
    assert!(parse_trace_metadata("(check-sat))").is_err());
}

#[test]
fn parse_trace_metadata_returns_default_for_irrelevant_input() {
    let metadata = parse_trace_metadata("atom-only").expect("parse metadata");
    assert_eq!(metadata.logic, TraceMetadata::empty().logic);
    assert!(metadata.expected_queries.is_empty());
}

#[test]
fn each_scanning_error_has_its_message() {
    let error = |input: &str| parse_trace_metadata(input).unwrap_err();
    assert_eq!(error("(check-sat"), "missing closing `)`");
    assert_eq!(error("(check-sat))"), "unexpected `)`");
    assert_eq!(error("\"oops"), "unterminated string literal");
    assert_eq!(error("|oops\\|"), "unterminated quoted symbol");
    assert_eq!(error("(set-info :status maybe)"), "unsupported query answer label: maybe");
    assert_eq!(query_count("(a \"x\"\"(y\") |(\\|(| (check-sat)"), Ok(1));
}

#[test]
fn expectation_rules_are_ordered_by_length() {
    let manifest = "# comment\n\na\tsat\tfirst\nabc\tunsat\tsecond\r\nab\tunknown\tthird\n";
    let rules = parse_expectation_rules(manifest, "m.tsv").expect("valid manifest");
    let prefixes: Vec<&str> = rules.iter().map(|rule| rule.prefix.as_str()).collect();
    assert_eq!(prefixes, vec!["abc", "ab", "a"]);
    assert_eq!(lookup_expectation("abcd", &rules), Some(0));
    assert_eq!(lookup_expectation("abd", &rules), Some(1));
    assert_eq!(lookup_expectation("ad", &rules), Some(2));
    assert_eq!(lookup_expectation("x", &rules), None);
    assert_eq!(
        parse_expectation_rules("a\tsat\n", "m.tsv"),
        Err("bad manifest row 1 in m.tsv: expected 3 tab-separated columns".to_string())
    );
    assert_eq!(
        parse_expectation_rules("a\tmaybe\tx\n", "m.tsv"),
        Err("unsupported query answer label: maybe".to_string())
    );
}

fn expected(answers: &[QueryAnswer]) -> Vec<ExpectedQueryResult> {
    answers
        .iter()
        .enumerate()
        .map(|(query_index, expected)| ExpectedQueryResult { query_index, expected: *expected })
        .collect()
}

#[test]
fn default_answers_fill_gaps_only() {
    let queries = expected(&[QueryAnswer::Sat, QueryAnswer::Unknown]);
    assert_eq!(
        merge_expectations(queries, Some(QueryAnswer::Unsat)),
        expected(&[QueryAnswer::Sat, QueryAnswer::Unsat])
    );
    assert_eq!(
        merge_expectations(Vec::new(), Some(QueryAnswer::Sat)),
        expected(&[QueryAnswer::Sat])
    );
    assert_eq!(merge_expectations(Vec::new(), None), Vec::new());
}

#[test]
fn supported_cases_are_known_by_their_suffix() {
    assert!(is_supported_case("a.smt2"));
    assert!(is_supported_case("a.smt2.gz"));
    assert!(is_supported_case("a.smt2.bz2"));
    assert!(!is_supported_case("a.cnf"));
}

fn gzip(text: &str) -> Vec<u8> {
    let mut encoder =
        flate2::write::GzEncoder::new(Vec::new(), flate2::Compression::default());
    encoder.write_all(text.as_bytes()).expect("write");
    encoder.finish().expect("finish")
}

fn bzip2_bytes(text: &str) -> Vec<u8> {
    let mut encoder = bzip2::write::BzEncoder::new(Vec::new(), bzip2::Compression::default());
    encoder.write_all(text.as_bytes()).expect("write");
    encoder.finish().expect("finish")
}

#[test]
fn case_files_are_decompressed_by_suffix() {
    let text = "(check-sat)\n";
    assert_eq!(case_text("a.smt2", "/a.smt2", text.as_bytes().to_vec()), Ok(text.to_string()));
    assert_eq!(case_text("a.smt2.gz", "/a", gzip(text)), Ok(text.to_string()));
    assert_eq!(case_text("a.smt2.bz2", "/a", bzip2_bytes(text)), Ok(text.to_string()));
    let mut members = gzip("one ");
    members.extend(gzip("two"));
    assert_eq!(case_text("a.gz", "/a", members), Ok("one two".to_string()));
}

#[test]
fn undecodable_case_files_are_rejected() {
    let error = case_text("a.gz", "/a.gz", b"plain".to_vec()).unwrap_err();
    assert!(error.starts_with("failed to decode gzip /a.gz: "), "{error}");
    let error = case_text("a.bz2", "/a.bz2", b"plain".to_vec()).unwrap_err();
    assert!(error.starts_with("failed to decode bzip2 /a.bz2: "), "{error}");
    assert_eq!(
        case_text("a", "/a", vec![0xff]),
        Err("failed to read /a: stream did not contain valid UTF-8".to_string())
    );
}

#[test]
fn cases_take_answers_from_status_and_manifest() {
    let rules = parse_expectation_rules("cases/\tsat\tsource\n", "m").expect("rules");
    let case = build_case(
        "/x/cases/a.smt2".to_string(),
        "cases/a.smt2".to_string(),
        12,
        &rules,
        "(set-logic QF_UF)(set-info :status unsat)(check-sat)(check-sat)",
    )
    .expect("case");
    assert_eq!(case.record.logic.as_deref(), Some("QF_UF"));
    assert_eq!(case.record.query_count, Some(2));
    assert_eq!(case.expected_queries, expected(&[QueryAnswer::Unsat, QueryAnswer::Sat]));
    let zipped = read_case(
        "/x/cases/a.smt2.gz".to_string(),
        "a.smt2.gz",
        "other/a".to_string(),
        gzip("(check-sat)"),
        12,
        &rules,
    )
    .expect("case");
    assert_eq!(zipped.expected_queries, expected(&[QueryAnswer::Unknown]));
}

fn case_at(path: &str, bytes: u64, answers: &[QueryAnswer]) -> DiscoveredCase {
    DiscoveredCase::new(
        path.to_string(),
        CaseRecord {
            key: path.to_string(),
            bytes,
            logic: None,
            query_count: Some(answers.len()),
        },
        expected(answers),
    )
}

#[test]
fn cases_run_largest_first_and_once() {
    let mut cases = Vec::new();
    push_case(&mut cases, case_at("/b", 1, &[]));
    push_case(&mut cases, case_at("/b", 1, &[]));
    push_case(&mut cases, case_at("/a-b/c", 1, &[]));
    push_case(&mut cases, case_at("/a/z", 1, &[]));
    push_case(&mut cases, case_at("/z", 9, &[]));
    let paths: Vec<String> =
        order_cases(cases).into_iter().map(|case| case.absolute_path).collect();
    assert_eq!(paths, vec!["/z", "/a/z", "/a-b/c", "/b"]);
}

#[test]
fn write_summary_file_serializes_json() {
    let summary = sample_summary(vec![sample_outcome(
        "cases/example.cnf",
        OutcomeCategory::Pass,
        millis(5),
        None,
    )]);
    assert_eq!(summary.validate(), Ok(()));
    assert_eq!(summary.format_version, FORMAT_VERSION);
    assert_eq!(summary.cases.len(), 1);
    assert_eq!(summary.cases[0].case.comparison_key(), "cases/example.cnf");
    let mut old = sample_summary(Vec::new());
    old.format_version = 1;
    assert_eq!(
        old.validate(),
        Err("unsupported saved result format version 1 (expected 3)".to_string())
    );
}

fn completed(answers: &[QueryAnswer]) -> CompletedQueryRun {
    CompletedQueryRun { actual_answers: answers.to_vec(), solver_elapsed: millis(4) }
}

#[test]
fn classify_completed_run_marks_unknown_expectations_as_no_oracle() {
    let case = DiscoveredCase::new(
        "/tmp/case.smt2".to_string(),
        CaseRecord {
            key: "cases/example.smt2".to_string(),
            bytes: 12,
            logic: Some("QF_UF".to_string()),
            query_count: Some(1),
        },
        vec![ExpectedQueryResult { query_index: 0, expected: QueryAnswer::Unknown }],
    );

    let outcome =
        classify_completed_run(case, millis(5), completed(&[QueryAnswer::Sat]), None);

    assert_eq!(outcome.category, OutcomeCategory::NoOracle);
    assert_eq!(outcome.queries.len(), 1);
    assert_eq!(outcome.queries[0].category, OutcomeCategory::NoOracle);
    assert!(outcome.detail.is_none());
}

#[test]
fn completed_runs_are_classified_exactly() {
    let (sat, unsat, unknown) = (QueryAnswer::Sat, QueryAnswer::Unsat, QueryAnswer::Unknown);
    let run = |wanted: &[QueryAnswer], got: &[QueryAnswer]| {
        let outcome =
            classify_completed_run(case_at("/c", 1, wanted), millis(5), completed(got), None);
        (outcome.category, outcome.detail, outcome.queries.len())
    };
    assert_eq!(run(&[sat, unsat], &[sat, unsat]), (OutcomeCategory::Pass, None, 2));
    assert_eq!(
        run(&[sat, unsat], &[sat, sat]),
        (OutcomeCategory::WrongAnswer, Some("query 2 expected Unsat, got Sat".to_string()), 2)
    );
    assert_eq!(
        run(&[sat, unsat], &[sat]),
        (OutcomeCategory::WrongAnswer, Some("query 2 expected Unsat, got Unknown".to_string()), 2)
    );
    assert_eq!(
        run(&[unknown], &[]),
        (OutcomeCategory::WrongAnswer, Some("expected 1 queries, got 0".to_string()), 1)
    );
    assert_eq!(run(&[], &[]), (OutcomeCategory::NoOracle, None, 0));
    assert_eq!(run(&[sat], &[sat, sat]), (OutcomeCategory::NoOracle, None, 2));
}

fn status(success: bool, code: Option<i32>, signal: Option<i32>) -> ChildStatus {
    ChildStatus { success, code, signal }
}

fn ended(
    status: ChildStatus,
    report: Option<Result<ChildReport, String>>,
    stderr: &str,
) -> (OutcomeCategory, Option<String>) {
    let outcome = classify_child_completion(
        case_at("/c", 1, &[QueryAnswer::Sat]),
        millis(5),
        status,
        report,
        stderr,
        Ok(None),
    );
    (outcome.category, outcome.detail)
}

#[test]
fn child_completions_are_classified_exactly() {
    let good = status(true, Some(0), None);
    let says = |category, detail: &str| (category, Some(detail.to_string()));
    assert_eq!(ended(good, None, ""), says(OutcomeCategory::HarnessError, "missing child report"));
    assert_eq!(
        ended(good, Some(Err("eof".to_string())), ""),
        says(OutcomeCategory::HarnessError, "invalid child report: eof")
    );
    assert_eq!(
        ended(good, Some(Ok(ChildReport::Completed(completed(&[QueryAnswer::Sat])))), ""),
        (OutcomeCategory::Pass, None)
    );
    assert_eq!(
        ended(status(false, Some(101), None), None, " thread panicked at x \n"),
        says(OutcomeCategory::Panic, "thread panicked at x")
    );
    assert_eq!(
        ended(status(false, None, Some(9)), None, ""),
        says(OutcomeCategory::Killed, "terminated by SIGKILL (possible OOM kill)")
    );
    assert_eq!(
        ended(status(false, None, Some(11)), None, ""),
        says(OutcomeCategory::Killed, "terminated by signal 11")
    );
    assert_eq!(
        ended(status(false, Some(-2), None), None, ""),
        says(OutcomeCategory::HarnessError, "child exited with status code -2")
    );
    assert_eq!(
        ended(status(false, Some(2), None), None, "oops\n"),
        says(OutcomeCategory::HarnessError, "child exited with status code 2: oops")
    );
    assert_eq!(
        ended(status(false, None, None), None, ""),
        says(OutcomeCategory::HarnessError, "child exited without status code")
    );
    let outcome = classify_child_completion(
        case_at("/c", 1, &[]),
        millis(5),
        good,
        Some(Ok(ChildReport::InputError("gone".to_string()))),
        "",
        Err("bad row".to_string()),
    );
    assert_eq!(outcome.detail.as_deref(), Some("invalid child telemetry: bad row"));
}

#[test]
fn reports_are_mapped_to_categories() {
    let report = |report| {
        let outcome = classify_report(case_at("/c", 1, &[]), millis(5), report, None);
        (outcome.category, outcome.detail)
    };
    assert_eq!(
        report(ChildReport::ParseError(" bad \n".to_string())),
        (OutcomeCategory::ParseError, Some("bad".to_string()))
    );
    assert_eq!(
        report(ChildReport::ProtocolError("odd".to_string())),
        (OutcomeCategory::HarnessError, Some("odd".to_string()))
    );
}

#[test]
fn waiting_ends_with_the_child_or_its_time() {
    assert!(matches!(next_wait(Polled::Exited, millis(1), millis(2)), WaitAction::Finish));
    assert!(matches!(next_wait(Polled::Running, millis(1), millis(2)), WaitAction::Sleep));
    assert!(matches!(next_wait(Polled::Running, millis(2), millis(2)), WaitAction::Kill));
    match next_wait(Polled::Failed("x".to_string()), millis(1), millis(2)) {
        WaitAction::GiveUp(detail) => assert_eq!(detail, "wait error: x"),
        _ => panic!("expected to give up"),
    }
}

#[test]
fn workers_are_bounded_by_cases() {
    assert_eq!(worker_count(8, 3), 3);
    assert_eq!(worker_count(2, 3), 2);
    assert_eq!(worker_count(8, 0), 1);
    assert_eq!(running_count(10, 3, 4), 4);
    assert_eq!(running_count(10, 8, 4), 2);
    assert_eq!(running_count(10, 11, 4), 0);
    assert_eq!(requested_roots(vec![]), vec!["."]);
    assert_eq!(requested_roots(vec!["x".to_string()]), vec!["x"]);
}

#[test]
fn saved_cases_stand_in_the_order_of_their_keys() {
    let mut progress = RunProgress::new();
    progress.add_outcome(sample_outcome("b", OutcomeCategory::Pass, millis(1), None));
    progress.add_outcome(sample_outcome("a", OutcomeCategory::Panic, millis(2), None));
    progress.add_outcome(sample_outcome("a", OutcomeCategory::Pass, millis(3), None));
    let summary = summarize_run(
        vec![".".to_string()],
        2,
        millis(30_000),
        millis(10),
        progress.outcomes,
        progress.stats,
    );
    let keys: Vec<(&str, Elapsed)> = summary
        .cases
        .iter()
        .map(|outcome| (outcome.case.comparison_key(), outcome.total_elapsed))
        .collect();
    assert_eq!(keys, vec![("a", millis(2)), ("a", millis(3)), ("b", millis(1))]);
    assert_eq!(summary.stats.done, 3);
    assert_eq!(summary.stats.panic, 1);
    assert!(summary.stats.has_failures());
    assert_eq!(order_outcomes(Vec::new()), Vec::new());
}

#[test]
fn solver_output_is_checked_against_the_query_count() {
    assert_eq!(
        classify_output("sat\n\n unsat \n", 2, millis(4)),
        Ok(ChildReport::Completed(completed(&[QueryAnswer::Sat, QueryAnswer::Unsat])))
    );
    assert_eq!(
        classify_output("sat\n", 2, millis(4)),
        Ok(ChildReport::ProtocolError("expected 2 query answers from qfuf, got 1".to_string()))
    );
    assert_eq!(
        classify_output("maybe\n", 1, millis(4)),
        Err("unsupported query answer label: maybe".to_string())
    );
    assert_eq!(
        solved_report(Err("bad".to_string()), 1, millis(4)),
        Ok(ChildReport::ParseError("bad".to_string()))
    );
    assert_eq!(expected_count("(check-sat)", None), Ok(1));
    assert_eq!(expected_count("(check-sat)", Some(4)), Ok(4));
}

#[test]
fn telemetry_rows_are_numbered_and_trimmed() {
    let rows = sample_rows("{}\n\n  x \n");
    assert_eq!(rows.len(), 2);
    assert_eq!((rows[0].number, rows[0].text.as_str()), (1, "{}"));
    assert_eq!((rows[1].number, rows[1].text.as_str()), (3, "x"));
    assert_eq!(
        sample_error(3, "t.jsonl", "eof"),
        "failed to parse telemetry sample 3 from t.jsonl: eof"
    );
    let sample = Sample {
        elapsed_nanos: 1,
        counters: Counters { sat: SatCounters::zero(), euf: EufCounters::zero() },
        gauges: Gauges { sat: SatGauges::zero(), euf: EufGauges::zero() },
    };
    let kept = case_telemetry(vec![sample], true).expect("telemetry");
    assert_eq!(kept.samples.len(), 1);
    let dropped = case_telemetry(vec![sample], false).expect("telemetry");
    assert_eq!(dropped.samples.len(), 0);
    assert_eq!(dropped.summary.sample_count, 1);
    assert!(case_telemetry(Vec::new(), true).is_none());
}

#[test]
fn render_progress_message_reports_running_workers() {
    let message = progress_message(&OutcomeStats::default(), 3);
    assert!(message.contains("run 3"));
    assert!(message.contains("ok 0"));
    assert!(message.contains("fail 0"));
    assert!(!message.contains("jobs"));
}

#[test]
fn render_progress_message_reports_failures_compactly() {
    let stats = OutcomeStats { wrong: 2, timeout: 1, harness: 3, ..OutcomeStats::default() };
    let message = progress_message(&stats, 1);
    assert!(message.contains("run 1"));
    assert!(message.contains("fail 6"));
    assert!(message.contains("[wrong 2 time 1 error 3]"));
}

#[test]
fn render_format_outcome_renders_successful_cases() {
    let outcome = sample_outcome("fixture/example.cnf", OutcomeCategory::Pass, millis(42), None);
    let rendered = format_outcome(&outcome, &format_duration(outcome.displayed_elapsed()));
    assert!(rendered.contains("PASS"));
    assert!(rendered.contains("42.0ms"));
    assert!(rendered.contains("fixture/example.cnf"));
}

#[test]
fn format_outcome_renders_complete_long_paths() {
    let outcome = sample_outcome(
        "cases/satlib/instance-group/very-long-case-name.cnf.gz",
        OutcomeCategory::Pass,
        millis(42),
        None,
    );
    let rendered = format_outcome(&outcome, &format_duration(outcome.displayed_elapsed()));
    assert!(rendered.contains("cases/satlib/instance-group/very-long-case-name.cnf.gz"));
}

fn sample_telemetry() -> Summary {
    Summary {
        sample_count: 1,
        sat: SatSummary {
            total_conflicts: 7,
            total_propagations: 42,
            total_decisions: 3,
            total_restarts: 1,
            peak_decision_level: 5,
            peak_assigned_vars: 11,
            final_live_learnt_clauses: 9,
            ..SatSummary::default()
        },
        euf: EufSummary {
            total_input_equalities: 4,
            total_congruence_merges: 2,
            total_theory_propagations: 1,
            total_theory_conflicts: 0,
            peak_registry_terms: 12,
            ..EufSummary::default()
        },
    }
}

#[test]
fn render_format_outcome_renders_telemetry_summary() {
    let mut outcome =
        sample_outcome("fixture/example.cnf", OutcomeCategory::Pass, millis(1000), None);
    outcome.telemetry = Some(CaseTelemetry { summary: sample_telemetry(), samples: Vec::new() });
    let rendered = format_outcome(&outcome, &format_duration(outcome.displayed_elapsed()));
    assert!(rendered.contains("conf 7"));
    assert!(rendered.contains("eq 4"));
    assert!(rendered.contains("peak-lvl 5"));
    assert!(rendered.contains("peak-terms 12"));
    let outcome = single_answer_outcome("fixture/example.cnf", Elapsed { secs: 1, nanos: 0 });
    let path = outcome.case.display_path.clone();
    let plain =
        format_single_outcome(&outcome, "1.00s", &path, &Some(sample_telemetry()));
    assert!(plain.contains("tele conf 7"));
    assert!(plain.contains("peak-lvl 5"));
    assert!(plain.contains("final-learnt 9"));
}

fn single_answer_outcome(path: &str, elapsed: Elapsed) -> SingleOutcome {
    SingleOutcome {
        case: CaseSpec {
            absolute_path: path.to_owned(),
            display_path: path.to_owned(),
            bytes: 123,
            expected: None,
            source: None,
        },
        elapsed,
        category: OutcomeCategory::Pass,
        actual: None,
        detail: None,
    }
}

#[test]
fn single_answer_outcomes_have_a_line_too() {
    let mut outcome = single_answer_outcome("fixture/example.cnf", millis(42));
    let line = format_single_outcome(&outcome, "42.0ms", "fixture/example.cnf", &None);
    assert!(line.contains("PASS"));
    assert!(line.contains("fixture/example.cnf"));
    outcome.category = OutcomeCategory::Timeout;
    outcome.detail = Some("timed out after 1s".to_owned());
    assert_eq!(
        format_single_outcome(&outcome, "1.00s", "k", &None),
        "    TIME     1.00s k :: timed out after 1s"
    );
}

#[test]
fn a_run_without_cases_is_refused() {
    assert_eq!(plan_run(4, 0), Err("no supported benchmark cases were found".to_owned()));
    assert_eq!(plan_run(4, 2), Ok(2));
    assert_eq!(plan_run(0, 2), Ok(1));
}

#[test]
fn rendered_lines_have_exact_texts() {
    let outcome = sample_outcome("k", OutcomeCategory::WrongAnswer, millis(1), Some("d"));
    assert_eq!(format_outcome(&outcome, "1.0ms"), "    WRONG    1.0ms k :: d");
    let mut summary = sample_telemetry();
    summary.sat.total_propagations = 1_234_567;
    assert_eq!(
        format_telemetry_summary(&summary),
        "sat conf 7 prop 1,234,567 dec 3 | euf eq 4 cong 2 tprop 1 tconf 0 | peak-lvl 5 peak-assign 11 peak-terms 12"
    );
    let mut stats = OutcomeStats::default();
    stats.record(OutcomeCategory::Pass);
    stats.record(OutcomeCategory::Killed);
    assert_eq!(totals_line(2, &stats), " total 2 | pass 1 | no-oracle 0 | fail 1");
    assert_eq!(
        failures_line(&stats),
        " wrong 0 | timeout 0 | panic 0 | parse 0 | killed 1 | harness 0"
    );
    assert_eq!(OutcomeCategory::Timeout.label().len(), LABEL_WIDTH);
}

#[test]
fn solver_output_is_read_back() {
    let script = "(declare-sort U 0)(declare-const a U)(check-sat)(assert (distinct a a))(check-sat)";
    let output = run_script(script).expect("script should run");
    let expected = expected_count(script, None).expect("queries");
    assert_eq!(
        classify_output(&output, expected, millis(4)),
        Ok(ChildReport::Completed(completed(&[QueryAnswer::Sat, QueryAnswer::Unsat])))
    );
}
