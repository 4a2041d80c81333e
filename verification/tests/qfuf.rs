//! Tests of the incremental QF-UF script runner.

use mysolver::qfuf::driver::Driver;
use mysolver::qfuf::script::{
    finish_telemetry, run_script, run_script_with_driver, start_failure, ScriptRun,
};
use mysolver::qfuf::sexpr::{tokenize, ExprReader, Tokenizer};

#[test]
fn solves_simple_unsat_euf_script() {
    let input = r#"
        (set-logic QF_UF)
        (declare-sort U 0)
        (declare-fun a () U)
        (declare-fun b () U)
        (declare-fun f (U) U)
        (assert (= a b))
        (assert (not (= (f a) (f b))))
        (check-sat)
        (exit)
    "#;
    assert_eq!(run_script(input).expect("script should run"), "unsat\n");
}

#[test]
fn supports_push_pop_and_multiple_queries() {
    let input = r#"
        (set-logic QF_UF)
        (declare-sort U 0)
        (declare-fun a () U)
        (declare-fun b () U)
        (assert (= a b))
        (check-sat)
        (push 1)
        (assert (not (= a b)))
        (check-sat)
        (pop 1)
        (check-sat)
        (exit)
    "#;
    assert_eq!(run_script(input).expect("script should run"), "sat\nunsat\nsat\n");
}

#[test]
fn supports_asserting_more_constraints_after_sat() {
    let input = r#"
        (set-logic QF_UF)
        (declare-sort U 0)
        (declare-fun a () U)
        (declare-fun b () U)
        (declare-fun c () U)
        (assert (or (= a b) (= a c)))
        (check-sat)
        (assert (not (= a b)))
        (check-sat)
        (exit)
    "#;
    assert_eq!(run_script(input).expect("script should run"), "sat\nsat\n");
}

#[test]
fn rejects_bare_non_nullary_function_symbols() {
    let input = r#"
        (set-logic QF_UF)
        (declare-sort U 0)
        (declare-const a U)
        (declare-fun f (U) U)
        (assert (= f (f a)))
        (check-sat)
        (exit)
    "#;
    assert_eq!(run_script(input), Err("symbol `f` expects 1 arguments".to_owned()));
}

#[test]
fn rejects_wrong_application_arity() {
    let input = r#"
        (set-logic QF_UF)
        (declare-sort U 0)
        (declare-const a U)
        (assert (= a (a a)))
        (check-sat)
        (exit)
    "#;
    assert_eq!(run_script(input), Err("symbol `a` expects 0 arguments, got 1".to_owned()));
}

#[test]
fn treats_nullary_application_lists_as_the_same_term() {
    let input = r#"
        (set-logic QF_UF)
        (declare-sort U 0)
        (declare-const a U)
        (assert (not (= a (a))))
        (check-sat)
        (exit)
    "#;
    assert_eq!(run_script(input).expect("script should run"), "unsat\n");
}

#[test]
fn unbalanced_scripts_are_rejected() {
    assert_eq!(run_script("(check-sat"), Err("missing closing `)`".to_owned()));
    assert_eq!(run_script("(check-sat))"), Err("trailing tokens after parse".to_owned()));
}

#[test]
fn unsupported_logics_and_commands_are_rejected() {
    assert_eq!(run_script("(set-logic QF_LIA)"), Err("unsupported logic: QF_LIA".to_owned()));
    assert_eq!(run_script("(frobnicate)"), Err("unsupported command: frobnicate".to_owned()));
    assert_eq!(
        run_script("(push x)").unwrap_err(),
        format!("invalid push level: {}", "x".parse::<u32>().unwrap_err())
    );
}

#[test]
fn boolean_structure_is_decided_exactly() {
    let input = r#"
        (set-logic QF_UF)
        (declare-const p Bool)
        (declare-const q Bool)
        (assert (xor p q))
        (assert (=> p q))
        (check-sat)
        (assert (not q))
        (check-sat)
    "#;
    assert_eq!(run_script(input).expect("script should run"), "sat\nunsat\n");
}

#[test]
fn let_and_ite_terms_are_decided_exactly() {
    let input = r#"
        (set-logic QF_UF)
        (declare-sort U 0)
        (declare-const a U)
        (declare-const b U)
        (declare-const p Bool)
        (assert (let ((x (ite p a b))) (and (distinct x a) (distinct x b))))
        (check-sat)
    "#;
    assert_eq!(run_script(input).expect("script should run"), "unsat\n");
}

#[test]
fn comments_end_at_the_end_of_their_line() {
    assert_eq!(tokenize("(a;b)\n c)"), vec!["(", "a", "c", ")"]);
}

#[test]
fn a_fresh_driver_runs_one_script() {
    let mut driver = Driver::new();
    let result = run_script_with_driver(&mut driver, "(declare-sort U 0)(declare-const a U)(assert (= a a))(check-sat)");
    assert_eq!(result, Ok("sat\n".to_owned()));
    let gauges = driver.telemetry_gauges();
    assert!(gauges.euf.registry_terms >= 1);
    assert_eq!(gauges.sat.decision_level, 0);
}

#[test]
fn telemetry_errors_are_merged_with_the_result() {
    let ok = || Ok("sat\n".to_owned());
    let bad = || Err("bad".to_owned());
    assert_eq!(finish_telemetry(ok(), Ok(())), Ok("sat\n".to_owned()));
    assert_eq!(
        finish_telemetry(ok(), Err("disk".to_owned())),
        Err("failed to finalize telemetry recorder: disk".to_owned())
    );
    assert_eq!(finish_telemetry(bad(), Ok(())), Err("bad".to_owned()));
    assert_eq!(
        finish_telemetry(bad(), Err("disk".to_owned())),
        Err("bad; failed to finalize telemetry recorder: disk".to_owned())
    );
}

#[test]
fn introduced_constants_are_fresh_whatever_a_script_declares() {
    let input = "(declare-sort U 0) (declare-fun |@qfuf.0| () U) (declare-fun a () U) \
                 (declare-fun b () U) (declare-fun c () U) (declare-fun p () Bool) \
                 (assert (= c (ite p a b))) (check-sat) \
                 (assert (not (= |@qfuf.0| a))) (assert (not (= |@qfuf.0| b))) (check-sat) \
                 (assert (= |@qfuf.0| c)) (check-sat)";
    assert_eq!(run_script(input).expect("script should run"), "sat\nsat\nunsat\n");
}

#[test]
fn tokenizers_and_readers_stop_at_sample_points() {
    let input = "(check-sat)".repeat(2048);
    let mut tokenizer = Tokenizer::new(&input);
    let mut stops = 0;
    while tokenizer.advance() {
        stops += 1;
    }
    assert_eq!(stops, 6);
    let tokens = tokenizer.into_tokens();
    assert_eq!(tokens, tokenize(&input));
    let mut reader = ExprReader::new(tokens);
    let mut stops = 0;
    while reader.advance().expect("expressions") {
        stops += 1;
    }
    assert_eq!(stops, 2);
    let exprs = reader.finish().expect("no trailing tokens");
    assert_eq!(exprs.len(), 2048);
    assert!(ScriptRun::from_exprs(&exprs).is_ok());

    let mut reader = ExprReader::new(tokenize("a )"));
    assert_eq!(reader.advance(), Ok(false));
    assert_eq!(reader.finish(), Err("trailing tokens after parse".to_owned()));
    let mut reader = ExprReader::new(tokenize("(a"));
    assert_eq!(reader.advance(), Err("missing closing `)`".to_owned()));
    assert_eq!(
        start_failure("no such directory"),
        "failed to start telemetry recorder: no such directory"
    );
}

#[test]
fn popping_too_far_is_rejected() {
    assert_eq!(run_script("(push 1)(pop 2)"), Err("pop failed: ScopeUnderflow".to_owned()));
}

#[test]
fn scripts_can_be_run_command_by_command() {
    let mut driver = Driver::new();
    let mut run = ScriptRun::start("(check-sat)(assert false)(check-sat)").expect("parses");
    let mut steps = 0;
    while !run.done() {
        run.step(&mut driver).expect("command runs");
        steps += 1;
    }
    assert_eq!(steps, 3);
    assert_eq!(run.into_output(), "sat\nunsat\n");
    assert!(ScriptRun::start("(").is_err());
}

#[test]
fn the_output_starts_with_that_of_the_first_commands() {
    let first = "(declare-sort U 0) (declare-fun a () U) (check-sat) ; done";
    let more = "(assert (not (= a a))) (check-sat)";
    let given = run_script(first).expect("script should run");
    assert_eq!(given, "sat\n");
    let whole = run_script(&format!("{first}\n{more}")).expect("script should run");
    assert_eq!(whole, "sat\nunsat\n");
    assert!(whole.starts_with(&given));
    assert!(run_script(&format!("{first}\n(assert b")).is_err());
}

#[test]
fn a_driver_hands_out_its_counters_once() {
    let mut driver = Driver::new();
    let input = "(declare-sort U 0) (declare-fun a () U) (declare-fun b () U) \
                 (declare-fun f (U) U) (assert (= a b)) (assert (not (= (f a) (f b)))) (check-sat)";
    assert_eq!(run_script_with_driver(&mut driver, input).expect("script should run"), "unsat\n");
    let counters = driver.take_counters();
    assert!(counters.euf.input_equalities > 0);
    assert!(counters.euf.theory_conflicts > 0);
    assert!(counters.sat.conflicts > 0);
    assert!(counters.sat.propagations > 0);
    assert_eq!(counters.sat.decisions, 2 * (counters.sat.conflicts - 1));
    assert_eq!(driver.take_counters().euf.input_equalities, 0);
    assert_eq!(driver.take_counters().sat.conflicts, 0);
}

#[test]
fn gauges_count_the_clauses_between_commands() {
    let mut driver = Driver::new();
    let before = driver.telemetry_gauges().sat;
    let input = "(declare-fun p () Bool) (declare-fun q () Bool) (assert (or p q)) (push 1) \
                 (assert (not p)) (check-sat)";
    assert_eq!(run_script_with_driver(&mut driver, input).expect("script should run"), "sat\n");
    let gauges = driver.telemetry_gauges().sat;
    assert!(gauges.live_irredundant_clauses > before.live_irredundant_clauses);
    assert!(gauges.clause_words > before.clause_words);
    assert_eq!(gauges.decision_level, 0);
    assert_eq!(gauges.assigned_vars, 0);
}
