//! Tests of the harness around a separate solver process.

use mysolver::harness::model::{ChildReport, CompletedQueryRun, Elapsed, OutcomeCategory, QueryAnswer};
use mysolver::sat_harness::child::{
    classify_process, infer_cargo_profile, qfuf_command, CargoProfile, ProcessOutput,
};
use mysolver::sat_harness::discover::{parse_trace_metadata, query_count};
use mysolver::sat_harness::jobs::{
    allowed_cpu_indices, parse_cpu_list, parse_topology_id, physical_core_count, topology_path,
};
use mysolver::sat_harness::model::{short_label, CaseSpec, ChildReportKind, ExpectedResult};
use mysolver::harness::parent::ChildStatus;
use mysolver::sat_harness::parent::{
    classify_child_completion, classify_report, requested_roots, timeout_outcome,
};

#[test]
fn infers_dev_profile_from_debug_binary() {
    let profile = infer_cargo_profile("/tmp/mysolver/target/debug/my-harness");
    assert_eq!(profile, Some(CargoProfile::Dev));
}

#[test]
fn infers_release_profile_from_release_binary() {
    let profile = infer_cargo_profile("/tmp/mysolver/target/release/my-harness");
    assert_eq!(profile, Some(CargoProfile::Release));
}

#[test]
fn infers_named_profile_from_custom_binary() {
    let profile = infer_cargo_profile("/tmp/mysolver/target/perf/my-harness");
    assert_eq!(profile, Some(CargoProfile::Named("perf".to_string())));
}

#[test]
fn rejects_non_target_binaries() {
    let profile = infer_cargo_profile("/usr/local/bin/my-harness");
    assert_eq!(profile, None);
}

#[test]
fn qfuf_command_uses_manifest_path() {
    let args = qfuf_command("/tmp/mysolver/target/release/my-harness", "/m/../qfuf/Cargo.toml");
    assert!(args.starts_with(&[
        "run".to_string(),
        "--quiet".to_string(),
        "--release".to_string(),
        "--manifest-path".to_string(),
        "/m/../qfuf/Cargo.toml".to_string(),
        "--bin".to_string(),
        "qfuf".to_string(),
    ]));
}

#[test]
fn test_binaries_under_deps_share_the_profile() {
    assert_eq!(infer_cargo_profile("/t/target/debug/deps/x-1"), Some(CargoProfile::Dev));
    assert_eq!(infer_cargo_profile("target"), None);
    assert_eq!(infer_cargo_profile(""), None);
    let named = qfuf_command("/t/target/perf/x", "/m");
    assert_eq!(
        named,
        vec!["run", "--quiet", "--profile", "perf", "--manifest-path", "/m", "--bin", "qfuf"]
    );
    assert_eq!(
        qfuf_command("/usr/bin/x", "/m"),
        vec!["run", "--quiet", "--manifest-path", "/m", "--bin", "qfuf"]
    );
}

#[test]
fn parse_cpu_list_expands_ranges() {
    let parsed = parse_cpu_list("0-2,5,8-9").expect("parse CPU list");
    assert_eq!(&*parsed, &[0, 1, 2, 5, 8, 9]);
}

#[test]
fn parse_cpu_list_rejects_descending_ranges() {
    let error = parse_cpu_list("3-1").expect_err("descending range should fail");
    assert_eq!(error, "descending CPU range");
}

#[test]
fn parse_cpu_list_rejects_invalid_indices() {
    let error = parse_cpu_list("0,a").expect_err("invalid CPU index should fail");
    assert_eq!(error, format!("invalid CPU index `a`: {}", "a".parse::<usize>().unwrap_err()));
}

#[test]
fn cpu_lists_tolerate_blanks_but_not_empty_segments() {
    assert_eq!(parse_cpu_list(" 1 - 2 , 4 "), Ok(vec![1, 2, 4]));
    assert_eq!(parse_cpu_list("1,,2"), Err("empty CPU-list segment".to_string()));
    assert_eq!(parse_cpu_list(""), Err("empty CPU-list segment".to_string()));
}

#[test]
fn allowed_cpus_come_from_the_process_status() {
    let status = "Name:\tx\nCpus_allowed_list:\t0-1,3\nMems_allowed:\t1\n";
    assert_eq!(allowed_cpu_indices(status), Ok(vec![0, 1, 3]));
    assert_eq!(allowed_cpu_indices("Name:\tx\n"), Err("missing Cpus_allowed_list".to_string()));
}

#[test]
fn siblings_share_one_physical_core() {
    assert_eq!(physical_core_count(&vec![(0, 0), (0, 1), (0, 0), (1, 0)]), Some(3));
    assert_eq!(physical_core_count(&vec![]), None);
    assert_eq!(parse_topology_id(" 7\n", "/p"), Ok(7));
    assert_eq!(
        parse_topology_id("x", "/p"),
        Err(format!("invalid topology value in /p: {}", "x".parse::<u32>().unwrap_err()))
    );
    assert_eq!(
        topology_path(12, "core_id"),
        "/sys/devices/system/cpu/cpu12/topology/core_id"
    );
}

#[test]
fn parsed_traces_give_their_metadata() {
    let metadata = parse_trace_metadata(
        "(set-logic QF_UF)(set-info :status sat)(check-sat)(check-sat x)(assert (check-sat))",
    )
    .expect("metadata");
    assert_eq!(metadata.logic.as_deref(), Some("QF_UF"));
    let answers: Vec<QueryAnswer> =
        metadata.expected_queries.iter().map(|query| query.expected).collect();
    assert_eq!(answers, vec![QueryAnswer::Sat, QueryAnswer::Unknown]);
    assert_eq!(query_count("(check-sat)"), Ok(1));
    assert_eq!(query_count("(check-sat))"), Err("trailing tokens after trace parse".to_string()));
    assert_eq!(query_count("(check-sat"), Err("missing closing `)`".to_string()));
    assert_eq!(
        query_count("(set-info :status maybe)"),
        Err("unsupported query answer label: maybe".to_string())
    );
}

fn spec(expected: Option<ExpectedResult>, source: Option<&str>) -> CaseSpec {
    CaseSpec {
        absolute_path: "/c.cnf".to_string(),
        display_path: "c.cnf".to_string(),
        bytes: 1,
        expected,
        source: source.map(str::to_string),
    }
}

fn elapsed() -> Elapsed {
    Elapsed { secs: 1, nanos: 0 }
}

#[test]
fn answers_are_held_against_the_oracle() {
    let pass = classify_report(spec(Some(ExpectedResult::Sat), None), elapsed(), ChildReportKind::Sat);
    assert_eq!((pass.category, pass.detail), (OutcomeCategory::Pass, None));
    let done = classify_report(spec(None, None), elapsed(), ChildReportKind::Unsat);
    assert_eq!(done.category, OutcomeCategory::NoOracle);
    assert_eq!(done.actual, Some(ExpectedResult::Unsat));
    let wrong =
        classify_report(spec(Some(ExpectedResult::Sat), None), elapsed(), ChildReportKind::Unsat);
    assert_eq!(wrong.detail.as_deref(), Some("expected sat from manifest, got unsat"));
    let sourced = classify_report(
        spec(Some(ExpectedResult::Unsat), Some("satlib")),
        elapsed(),
        ChildReportKind::Sat,
    );
    assert_eq!(sourced.detail.as_deref(), Some("expected unsat from satlib, got sat"));
    let parse = classify_report(
        spec(None, None),
        elapsed(),
        ChildReportKind::ParseError(" bad\n".to_string()),
    );
    assert_eq!((parse.category, parse.detail), (OutcomeCategory::ParseError, Some("bad".to_string())));
    let input = classify_report(
        spec(None, None),
        elapsed(),
        ChildReportKind::InputError("gone".to_string()),
    );
    assert_eq!(
        (input.category, input.detail),
        (OutcomeCategory::HarnessError, Some("gone".to_string()))
    );
}

#[test]
fn timeouts_name_their_limit() {
    let outcome = timeout_outcome(spec(None, None), elapsed(), Elapsed { secs: 90, nanos: 0 });
    assert_eq!(outcome.category, OutcomeCategory::Timeout);
    assert_eq!(outcome.detail.as_deref(), Some("timed out after 1m 30s"));
    assert_eq!(short_label(OutcomeCategory::Timeout), "TIME");
    assert_eq!(short_label(OutcomeCategory::Panic), "PANIC");
    assert_eq!(requested_roots(vec![]), vec!["test/fixture/sat"]);
}

#[test]
fn expected_results_have_labels() {
    assert_eq!(ExpectedResult::parse("sat"), Ok(ExpectedResult::Sat));
    assert_eq!(ExpectedResult::parse("unsat"), Ok(ExpectedResult::Unsat));
    assert_eq!(
        ExpectedResult::parse("unknown"),
        Err("unsupported expectation label: unknown".to_string())
    );
    assert_eq!(ExpectedResult::Unsat.as_str(), "unsat");
}

fn process(success: bool, stderr: &str, stdout: Result<String, String>) -> ProcessOutput {
    ProcessOutput { success, status: "exit status: 1".to_string(), stderr: stderr.to_string(), stdout }
}

#[test]
fn finished_processes_are_reported() {
    let done = classify_process(process(true, "", Ok("unsat\n".to_string())), 1, elapsed());
    assert_eq!(
        done,
        Ok(ChildReport::Completed(CompletedQueryRun {
            actual_answers: vec![QueryAnswer::Unsat],
            solver_elapsed: elapsed(),
        }))
    );
    assert_eq!(
        classify_process(process(false, " bad\n", Ok(String::new())), 1, elapsed()),
        Ok(ChildReport::ParseError("bad".to_string()))
    );
    assert_eq!(
        classify_process(process(false, "\n", Ok(String::new())), 1, elapsed()),
        Ok(ChildReport::ParseError("qfuf exited with exit status: 1".to_string()))
    );
    assert_eq!(
        classify_process(process(true, "", Err("byte 0".to_string())), 1, elapsed()),
        Err("qfuf wrote non-utf8 stdout: byte 0".to_string())
    );
}

#[test]
fn finished_children_are_classified() {
    let case = || CaseSpec {
        absolute_path: "/c".to_owned(),
        display_path: "c".to_owned(),
        bytes: 1,
        expected: Some(ExpectedResult::Sat),
        source: None,
    };
    let elapsed = Elapsed { secs: 1, nanos: 0 };
    let ended = |code: Option<i32>, signal: Option<i32>| ChildStatus {
        success: code == Some(0),
        code,
        signal,
    };
    let classify = |status: ChildStatus, report: Option<Result<ChildReportKind, String>>, stderr| {
        let outcome = classify_child_completion(case(), elapsed, status, report, stderr);
        (outcome.category, outcome.detail.unwrap_or_default())
    };
    let ok = || ended(Some(0), None);
    assert_eq!(
        classify(ok(), Some(Ok(ChildReportKind::Sat)), ""),
        (OutcomeCategory::Pass, String::new())
    );
    assert_eq!(
        classify(ok(), Some(Ok(ChildReportKind::Unsat)), ""),
        (OutcomeCategory::WrongAnswer, "expected sat from manifest, got unsat".to_owned())
    );
    assert_eq!(
        classify(ok(), None, ""),
        (OutcomeCategory::HarnessError, "missing child report".to_owned())
    );
    assert_eq!(
        classify(ok(), Some(Err("eof".to_owned())), ""),
        (OutcomeCategory::HarnessError, "invalid child report: eof".to_owned())
    );
    assert_eq!(
        classify(ended(Some(101), None), None, " thread panicked at x \n"),
        (OutcomeCategory::Panic, "thread panicked at x".to_owned())
    );
    assert_eq!(
        classify(ended(None, Some(9)), None, ""),
        (OutcomeCategory::Killed, "terminated by SIGKILL (possible OOM kill)".to_owned())
    );
    assert_eq!(
        classify(ended(None, Some(11)), None, ""),
        (OutcomeCategory::Killed, "terminated by signal 11".to_owned())
    );
    assert_eq!(
        classify(ended(Some(2), None), None, "bad"),
        (OutcomeCategory::HarnessError, "child exited with status code 2: bad".to_owned())
    );
}
