//! Tests of the incremental lowering solver.

use mysolver::batch::Batch;
use mysolver::euf_core::Fuel;
use mysolver::lower::command::Command;
use mysolver::lower::search::SatResult;
use mysolver::lower::solver::{Solver, SolverEvent};
use mysolver::qfuf::sexpr::{parse_many, tokenize, SExpr};

fn parse(input: &str) -> Vec<SExpr> {
    let tokens = tokenize(input);
    let (exprs, next) = parse_many(&tokens, 0).expect("valid sexpr");
    assert_eq!(next, tokens.len());
    exprs
}

fn run(input: &str) -> SatResult {
    let mut solver = Solver::new();
    for expr in parse(input) {
        let command = Command::from_sexpr(&expr).expect("valid command");
        if let SolverEvent::CheckSat(result) =
            solver.handle_command(&command).expect("command succeeds")
        {
            return result;
        }
    }
    SatResult::Unknown
}

fn run_all_checks(input: &str) -> Vec<SatResult> {
    let mut solver = Solver::new();
    let mut results = Vec::new();
    for expr in parse(input) {
        let command = Command::from_sexpr(&expr).expect("valid command");
        if let SolverEvent::CheckSat(result) =
            solver.handle_command(&command).expect("command succeeds")
        {
            results.push(result);
        }
    }
    results
}

fn run_with_fuel(input: &str, fuel: &mut Fuel) -> SatResult {
    let mut solver = Solver::new();
    for expr in parse(input) {
        let command = Command::from_sexpr(&expr).expect("valid command");
        if let SolverEvent::CheckSat(result) =
            solver.handle_command_with_budget(&command, fuel).expect("command succeeds")
        {
            return result;
        }
    }
    SatResult::Unknown
}

#[test]
fn detects_direct_euf_conflict() {
    assert_eq!(
        run("(assert (= a b)) (assert (distinct (f a) (f b))) (check-sat)"),
        SatResult::Unsat
    );
}

#[test]
fn supports_push_pop() {
    let input = "(assert (= a b)) (push 1) (assert (distinct a b)) (pop 1) (check-sat)";
    assert_eq!(run(input), SatResult::Sat);
}

#[test]
fn solves_implication_conflict_without_status_hint() {
    assert_eq!(run("(assert (=> p false)) (assert p) (check-sat)"), SatResult::Unsat);
}

#[test]
fn solves_boolean_equality_to_theory_atom() {
    assert_eq!(
        run("(assert (= flag (= a b))) (assert flag) (assert (distinct a b)) (check-sat)"),
        SatResult::Unsat
    );
}

#[test]
fn solves_boolean_ite_with_theory_branches() {
    assert_eq!(
        run("(assert (ite p (= a b) (distinct a b))) (assert p) (assert (distinct a b)) (check-sat)"),
        SatResult::Unsat
    );
}

#[test]
fn solves_negated_equality_as_disequality() {
    assert_eq!(
        run("(assert (not (= a b))) (assert (= (f a) (f b))) (check-sat)"),
        SatResult::Sat
    );
    assert_eq!(run("(assert (not (= a b))) (assert (= a b)) (check-sat)"), SatResult::Unsat);
}

#[test]
fn status_hint_is_metadata_only() {
    assert_eq!(
        run("(assert false) (set-info :status sat) (check-sat)"),
        SatResult::Unsat
    );
}

#[test]
fn repeated_check_sat_reuses_lowered_assertions() {
    assert_eq!(
        run_all_checks(
            "(define-fun same () Bool (= a b)) \
             (assert same) \
             (check-sat) \
             (assert (distinct a b)) \
             (check-sat)"
        ),
        vec![SatResult::Sat, SatResult::Unsat]
    );
}

#[test]
fn repeated_check_sat_tracks_nested_frame_activation() {
    assert_eq!(
        run_all_checks(
            "(push 1) \
             (assert p) \
             (push 1) \
             (assert (not p)) \
             (check-sat) \
             (pop 1) \
             (check-sat) \
             (pop 1) \
             (check-sat)"
        ),
        vec![SatResult::Unsat, SatResult::Sat, SatResult::Sat]
    );
}

#[test]
fn popped_frame_assertions_stay_dormant_after_later_checks() {
    assert_eq!(
        run_all_checks(
            "(assert (= a b)) \
             (push 1) \
             (assert (distinct a b)) \
             (check-sat) \
             (pop 1) \
             (check-sat) \
             (check-sat)"
        ),
        vec![SatResult::Unsat, SatResult::Sat, SatResult::Sat]
    );
}

#[test]
fn check_sat_returns_interrupted_when_fuel_is_exhausted() {
    let mut fuel = Fuel::new(0);
    assert_eq!(
        run_with_fuel("(assert (= a b)) (check-sat)", &mut fuel),
        SatResult::Interrupted
    );
}

#[test]
fn recursive_define_fun_is_rejected() {
    let source = "(define-fun self () Bool self)";
    let expr = parse(source).remove(0);
    let command = Command::from_sexpr(&expr).expect("valid command");
    let mut solver = Solver::new();
    let error = solver.handle_command(&command).expect_err("recursive definition must fail");
    assert!(error.message().contains("cyclic define-fun reference involving `self`"));
}

#[derive(Debug)]
struct FixtureError {
    path: String,
    message: String,
}

impl FixtureError {
    fn new(path: &str, message: impl Into<String>) -> Self {
        Self { path: path.to_string(), message: message.into() }
    }

    fn text(&self) -> String {
        format!("{}: {}", self.path, self.message)
    }
}

/// Returns the result that a `set-info` command announces.
fn announced(expr: &SExpr) -> Option<SatResult> {
    let SExpr::List(items) = expr else {
        return None;
    };
    let [SExpr::Atom(head), SExpr::Atom(keyword), SExpr::Atom(value)] = items.as_slice() else {
        return None;
    };
    if head != "set-info" || keyword != ":status" {
        return None;
    }
    match value.as_str() {
        "sat" => Some(SatResult::Sat),
        "unsat" => Some(SatResult::Unsat),
        _ => Some(SatResult::Unknown),
    }
}

fn run_fixture(path: &str, input: &str, fuel_limit: Option<u64>) -> Result<usize, FixtureError> {
    let mut solver = Solver::new();
    let mut fuel = fuel_limit.map(Fuel::new);
    let mut expected_status = None;
    let mut check_sat_count = 0usize;

    for expr in parse(input) {
        let command = Command::from_sexpr(&expr)
            .map_err(|error| FixtureError::new(path, format!("command error: {}", error.message())))?;
        if let Some(status) = announced(&expr) {
            expected_status = Some(status);
            continue;
        }
        let event = match fuel.as_mut() {
            Some(fuel) => solver.handle_command_with_budget(&command, fuel),
            None => solver.handle_command(&command),
        }
        .map_err(|error| FixtureError::new(path, format!("solver error: {}", error.message())))?;
        match event {
            SolverEvent::Updated => {}
            SolverEvent::Exit => break,
            SolverEvent::CheckSat(actual) => {
                check_sat_count += 1;
                let expected = expected_status.ok_or_else(|| {
                    FixtureError::new(path, "check-sat without preceding :status")
                })?;
                if actual != expected {
                    return Err(FixtureError::new(
                        path,
                        format!(
                            "check-sat #{check_sat_count} mismatch: expected {}, got {}",
                            expected.name(),
                            actual.name()
                        ),
                    ));
                }
            }
        }
    }

    if check_sat_count == 0 {
        return Err(FixtureError::new(path, "fixture does not contain check-sat"));
    }

    Ok(check_sat_count)
}

#[test]
fn qf_uf_runner_tracks_status_per_check_sat() {
    let input = r#"
        (set-logic QF_UF)
        (set-info :status sat)
        (assert (= a b))
        (check-sat)
        (set-info :status unsat)
        (assert (distinct a b))
        (check-sat)
        (exit)
    "#;

    let checks = run_fixture("inline-qf-uf", input, None).expect("fixture succeeds");
    assert_eq!(checks, 2);
}

#[test]
fn qf_uf_runner_reports_interrupted_fixture() {
    let input = r#"
        (set-logic QF_UF)
        (set-info :status sat)
        (assert (= a b))
        (check-sat)
    "#;

    let error = run_fixture("inline-qf-uf", input, Some(0)).expect_err("fuel exhaustion fails");
    assert_eq!(
        error.text(),
        "inline-qf-uf: check-sat #1 mismatch: expected sat, got interrupted"
    );
}

#[test]
fn results_have_smtlib_words() {
    assert_eq!(SatResult::Sat.as_smtlib(), "sat");
    assert_eq!(SatResult::Unsat.as_smtlib(), "unsat");
    assert_eq!(SatResult::Unknown.as_smtlib(), "unknown");
    assert_eq!(SatResult::Interrupted.as_smtlib(), "unknown");
}

#[test]
fn popping_more_than_was_pushed_is_rejected() {
    let mut solver = Solver::new();
    let command = Command::from_sexpr(&parse("(pop 1)")[0]).expect("valid command");
    assert!(solver.handle_command(&command).is_err());
}

#[test]
fn let_bindings_and_definitions_are_expanded() {
    assert_eq!(
        run("(assert (let ((x (f a))) (distinct x (f a)))) (check-sat)"),
        SatResult::Unsat
    );
    assert_eq!(
        run("(define-fun eq () Bool (= a b)) (assert eq) (assert (not (= b a))) (check-sat)"),
        SatResult::Unsat
    );
    let mut solver = Solver::new();
    let binary = &parse("(define-fun eq ((x U) (y U)) Bool (= x y))")[0];
    let command = Command::from_sexpr(binary).expect("valid command");
    assert_eq!(
        solver.handle_command(&command).unwrap_err().message(),
        "define-fun `eq` has arity 2; only arity-0 definitions are supported in this path"
    );
}

#[test]
fn malformed_commands_are_rejected() {
    assert!(Command::from_sexpr(&parse("atom")[0]).is_err());
    assert!(Command::from_sexpr(&parse("(assert)")[0]).is_err());
    assert!(Command::from_sexpr(&parse("(push x)")[0]).is_err());
}

#[test]
fn nested_frames_give_back_what_they_held() {
    assert_eq!(
        run_all_checks(
            "(push 1) (assert p) (push 1) (assert (not p)) (check-sat) (pop 1) (check-sat) \
             (pop 1) (check-sat)"
        ),
        vec![SatResult::Unsat, SatResult::Sat, SatResult::Sat]
    );
}

#[test]
fn only_queries_draw_from_the_budget() {
    let mut solver = Solver::new();
    let mut fuel = Fuel::new(2);
    let script = "(push 1) (assert (= a b)) (define-fun c () Bool true) (pop 1) (assert p)";
    for expr in parse(script) {
        let command = Command::from_sexpr(&expr).expect("valid command");
        assert_eq!(
            solver.handle_command_with_budget(&command, &mut fuel).expect("command succeeds"),
            SolverEvent::Updated
        );
        assert_eq!(fuel.remaining(), 2);
    }
    assert_eq!(solver.check_sat_with_budget(&mut fuel), SatResult::Sat);
    assert_eq!(fuel.remaining(), 1);
}

#[test]
fn commands_keep_what_they_were_read_from() {
    let read = |text: &str| Command::from_sexpr(&parse(text)[0]).expect("valid command");
    let whole = |text: &str| parse(text).remove(0);
    assert_eq!(read("(set-logic QF_UF)"), Command::SetLogic(whole("(set-logic QF_UF)")));
    assert_eq!(
        read("(set-info :status unsat)"),
        Command::SetInfo(whole("(set-info :status unsat)"))
    );
    assert_eq!(read("(declare-sort U 0)"), Command::DeclareSort(whole("(declare-sort U 0)")));
    assert_eq!(
        read("(declare-const a U)"),
        Command::DeclareFun(whole("(declare-const a U)"))
    );
    match read("(define-fun f ((x U) (y U)) (Array U) x)") {
        Command::DefineFun(define) => {
            assert_eq!(define.binders, parse("(x U) (y U)"));
            assert_eq!(define.name, "f");
        }
        other => panic!("unexpected command {other:?}"),
    }
}

#[test]
fn a_batch_of_checkpoints_costs_one_unit() {
    let mut fuel = Fuel::new(5);
    let mut batch = Batch::new(3);
    for expected in [4, 4, 4, 3, 3, 3, 2] {
        assert!(batch.checkpoint(&mut fuel));
        assert_eq!(fuel.remaining(), expected);
    }
    let mut empty = Fuel::new(0);
    assert!(batch.checkpoint(&mut empty));
    assert!(batch.checkpoint(&mut empty));
    assert!(!batch.checkpoint(&mut empty));
}
