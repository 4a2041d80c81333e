//! Tests of the congruence-closure checker and of the incremental theory.

use mysolver::euf::ids::{AtomLiteralKind, SortRef, SymbolRef, TermRef};
use mysolver::euf::theory::EufTheory;
use mysolver::euf_core::{EufCheckOutcome, EufSolver, Fuel, TheoryAtom};
use mysolver::sat::{Lit, SatResult, Solver, Theory, TheoryClauseKind, Var};

#[test]
fn closes_congruence() {
    let mut euf = EufSolver::new();
    let a_fun = euf.alloc_fun();
    let b_fun = euf.alloc_fun();
    let f_fun = euf.alloc_fun();
    let a = euf.intern_term(a_fun, vec![]);
    let b = euf.intern_term(b_fun, vec![]);
    let fa = euf.intern_term(f_fun, vec![a]);
    let fb = euf.intern_term(f_fun, vec![b]);
    let atoms = [TheoryAtom::Eq(a, b), TheoryAtom::Diseq(fa, fb)];
    assert!(euf.check(&atoms).is_err());
}

#[test]
fn interrupts_when_fuel_runs_out() {
    let mut euf = EufSolver::new();
    let a_fun = euf.alloc_fun();
    let b_fun = euf.alloc_fun();
    let a = euf.intern_term(a_fun, vec![]);
    let b = euf.intern_term(b_fun, vec![]);
    let atoms = [TheoryAtom::Eq(a, b)];
    let mut fuel = Fuel::new(0);
    assert_eq!(euf.check_with_budget(&atoms, &mut fuel), EufCheckOutcome::Interrupted);
}

#[test]
fn stores_terms_as_function_applications() {
    let mut euf = EufSolver::new();
    let a_fun = euf.alloc_fun();
    let f_fun = euf.alloc_fun();
    let a = euf.intern_term(a_fun, vec![]);
    let nullary_a = euf.intern_term(a_fun, vec![]);
    let fa = euf.intern_term(f_fun, vec![a]);

    let const_term = &euf.terms()[a.index()];
    let nullary_term = &euf.terms()[nullary_a.index()];
    let app_term = &euf.terms()[fa.index()];

    assert_eq!(const_term.args(), &[]);
    assert_eq!(nullary_term.args(), &[]);
    assert_eq!(app_term.args(), &[a]);
    assert_eq!(const_term.fun(), nullary_term.fun());
    assert_eq!(app_term.fun(), f_fun);
}

#[test]
fn conflicts_say_which_terms_clash() {
    let mut euf = EufSolver::default();
    let a_fun = euf.alloc_fun();
    let b_fun = euf.alloc_fun();
    let a = euf.intern_term(a_fun, vec![]);
    let b = euf.intern_term(b_fun, vec![]);
    let conflict = euf.check(&[TheoryAtom::Eq(a, b), TheoryAtom::Diseq(b, a)]).unwrap_err();
    assert_eq!((conflict.left, conflict.right), (b, a));
    let message = conflict.message();
    assert!(
        message.starts_with("conflicting disequality between terms TermId(1) and TermId(0): "),
        "{message}"
    );
}

#[test]
fn terms_outside_the_atoms_make_no_difference() {
    let mut euf = EufSolver::new();
    let a_fun = euf.alloc_fun();
    let b_fun = euf.alloc_fun();
    let f_fun = euf.alloc_fun();
    let a = euf.intern_term(a_fun, vec![]);
    let b = euf.intern_term(b_fun, vec![]);
    let atoms = [TheoryAtom::Eq(a, b)];
    assert!(euf.check(&atoms).is_ok());
    let fa = euf.intern_term(f_fun, vec![a]);
    euf.intern_term(f_fun, vec![fa]);
    assert!(euf.check(&atoms).is_ok());
}

#[test]
fn enough_fuel_gives_the_unbounded_answer() {
    let mut euf = EufSolver::new();
    let a_fun = euf.alloc_fun();
    let b_fun = euf.alloc_fun();
    let a = euf.intern_term(a_fun, vec![]);
    let b = euf.intern_term(b_fun, vec![]);
    let mut fuel = Fuel::new(1000);
    assert_eq!(
        euf.check_with_budget(&[TheoryAtom::Diseq(a, b)], &mut fuel),
        EufCheckOutcome::Consistent
    );
    assert!(fuel.remaining() < 1000);
}

fn bool_lit(var: Var) -> Lit {
    Lit::new(var, false)
}

fn neg_bool_lit(var: Var) -> Lit {
    Lit::new(var, true)
}

#[test]
fn registry_interns_terms_and_atoms_canonically() {
    let mut theory = EufTheory::default();
    let mut sat = Solver::new();
    let bool_sort = theory.intern_sort(SortRef::Bool);
    let u_sort = theory.intern_sort(SortRef::Uninterpreted { name: "U" });
    let f = theory.intern_symbol(SymbolRef { name: "f", arg_sorts: &[u_sort], result_sort: u_sort });
    let a_sym = theory.intern_symbol(SymbolRef { name: "a", arg_sorts: &[], result_sort: u_sort });
    let a = theory.intern_term(TermRef::nullary(a_sym), u_sort);
    let fa = theory.intern_term(TermRef { fun: f, args: &[a] }, u_sort);

    assert_eq!(theory.term_sort(fa), u_sort);
    assert_eq!(theory.intern_sort(SortRef::Bool), bool_sort);

    let sat_var = sat.new_var();
    let atom = theory.intern_equality_atom(fa, a, sat_var);
    assert_eq!(theory.theory_atom_for_var(sat_var), Some(atom));
}

#[test]
fn theory_reports_conflict_for_negative_congruence_atom() {
    let mut sat = Solver::new();
    let mut theory = EufTheory::default();
    let u_sort = theory.intern_sort(SortRef::Uninterpreted { name: "U" });
    let f = theory.intern_symbol(SymbolRef { name: "f", arg_sorts: &[u_sort], result_sort: u_sort });
    let a_sym = theory.intern_symbol(SymbolRef { name: "a", arg_sorts: &[], result_sort: u_sort });
    let b_sym = theory.intern_symbol(SymbolRef { name: "b", arg_sorts: &[], result_sort: u_sort });
    let a = theory.intern_term(TermRef::nullary(a_sym), u_sort);
    let b = theory.intern_term(TermRef::nullary(b_sym), u_sort);
    let fa = theory.intern_term(TermRef { fun: f, args: &[a] }, u_sort);
    let fb = theory.intern_term(TermRef { fun: f, args: &[b] }, u_sort);

    let ab_var = sat.new_var();
    let fafb_var = sat.new_var();
    let ab = bool_lit(ab_var);
    let not_fafb = neg_bool_lit(fafb_var);
    theory.intern_equality_atom(a, b, ab_var);
    theory.intern_equality_atom(fa, fb, fafb_var);

    let _ = sat.add_clause(&[ab]);
    let _ = sat.add_clause(&[not_fafb]);

    assert_eq!(sat.solve_with_assumptions(&[], &mut theory), SatResult::Unsat);
}

#[test]
fn theory_repairs_congruence_through_transitive_input_merges() {
    let mut sat = Solver::new();
    let mut theory = EufTheory::default();
    let u_sort = theory.intern_sort(SortRef::Uninterpreted { name: "U" });
    let f = theory.intern_symbol(SymbolRef { name: "f", arg_sorts: &[u_sort], result_sort: u_sort });
    let a_sym = theory.intern_symbol(SymbolRef { name: "a", arg_sorts: &[], result_sort: u_sort });
    let b_sym = theory.intern_symbol(SymbolRef { name: "b", arg_sorts: &[], result_sort: u_sort });
    let c_sym = theory.intern_symbol(SymbolRef { name: "c", arg_sorts: &[], result_sort: u_sort });
    let a = theory.intern_term(TermRef::nullary(a_sym), u_sort);
    let b = theory.intern_term(TermRef::nullary(b_sym), u_sort);
    let c = theory.intern_term(TermRef::nullary(c_sym), u_sort);
    let fa = theory.intern_term(TermRef { fun: f, args: &[a] }, u_sort);
    let fc = theory.intern_term(TermRef { fun: f, args: &[c] }, u_sort);

    let ab_var = sat.new_var();
    let bc_var = sat.new_var();
    let fafc_var = sat.new_var();
    let ab = bool_lit(ab_var);
    let bc = bool_lit(bc_var);
    let not_fafc = neg_bool_lit(fafc_var);
    theory.intern_equality_atom(a, b, ab_var);
    theory.intern_equality_atom(b, c, bc_var);
    theory.intern_equality_atom(fa, fc, fafc_var);

    let _ = sat.add_clause(&[ab]);
    let _ = sat.add_clause(&[bc]);
    let _ = sat.add_clause(&[not_fafc]);

    assert_eq!(sat.solve_with_assumptions(&[], &mut theory), SatResult::Unsat);
}

#[test]
fn equal_endpoints_share_one_atom_whatever_their_order() {
    let mut theory = EufTheory::new();
    let mut sat = Solver::new();
    let u_sort = theory.intern_sort(SortRef::Uninterpreted { name: "U" });
    let a_sym = theory.intern_symbol(SymbolRef { name: "a", arg_sorts: &[], result_sort: u_sort });
    let b_sym = theory.intern_symbol(SymbolRef { name: "b", arg_sorts: &[], result_sort: u_sort });
    let a = theory.intern_term(TermRef::nullary(a_sym), u_sort);
    let b = theory.intern_term(TermRef::nullary(b_sym), u_sort);
    assert_eq!(theory.intern_term(TermRef::nullary(a_sym), u_sort), a);
    let var = sat.new_var();
    let atom = theory.intern_equality_atom(b, a, var);
    assert_eq!(theory.intern_equality_atom(a, b, var), atom);
    assert_eq!(theory.equality_var(a, b), Some(var));
    assert_eq!(theory.equality_var(b, a), Some(var));
    assert_eq!(
        theory.atom_literal_kind(Lit::new(var, true)),
        Some(AtomLiteralKind::Eq { lhs: a, rhs: b, positive: false })
    );
    assert_eq!(theory.num_atoms(), 1);
}

#[test]
fn popped_clauses_no_longer_constrain() {
    let mut sat = Solver::new();
    let mut theory = EufTheory::new();
    let u_sort = theory.intern_sort(SortRef::Uninterpreted { name: "U" });
    let a_sym = theory.intern_symbol(SymbolRef { name: "a", arg_sorts: &[], result_sort: u_sort });
    let a = theory.intern_term(TermRef::nullary(a_sym), u_sort);
    let var = sat.new_var();
    theory.intern_equality_atom(a, a, var);
    sat.push();
    let _ = sat.add_clause(&[Lit::new(var, true)]);
    assert_eq!(sat.solve_with_assumptions(&[], &mut theory), SatResult::Unsat);
    assert!(sat.pop(1).is_ok());
    assert_eq!(sat.solve_with_assumptions(&[], &mut theory), SatResult::Sat);
    assert_eq!(sat.solve_with_assumptions(&[Lit::new(var, true)], &mut theory), SatResult::Unsat);
    assert!(sat.pop(1).is_err());
}

#[test]
fn gauges_count_what_the_theory_holds() {
    let mut theory = EufTheory::new();
    let u_sort = theory.intern_sort(SortRef::Uninterpreted { name: "U" });
    let a_sym = theory.intern_symbol(SymbolRef { name: "a", arg_sorts: &[], result_sort: u_sort });
    theory.intern_term(TermRef::nullary(a_sym), u_sort);
    let gauges = theory.telemetry_gauges();
    assert_eq!(gauges.registry_terms, 1);
    assert_eq!(gauges.registry_atoms, 0);
    assert_eq!(gauges.congruence_table_entries, 0);
    assert!(!theory.has_pending_work());
}

#[test]
fn a_check_uses_a_fixed_amount_of_fuel() {
    let mut euf = EufSolver::new();
    let a_fun = euf.alloc_fun();
    let b_fun = euf.alloc_fun();
    let f_fun = euf.alloc_fun();
    let a = euf.intern_term(a_fun, vec![]);
    let b = euf.intern_term(b_fun, vec![]);
    let fa = euf.intern_term(f_fun, vec![a]);
    let fb = euf.intern_term(f_fun, vec![b]);

    let atoms = [TheoryAtom::Eq(a, b)];
    for extra in [0, 1, 100] {
        let mut fuel = Fuel::new(8 + extra);
        assert_eq!(euf.check_with_budget(&atoms, &mut fuel), EufCheckOutcome::Consistent);
        assert_eq!(fuel.remaining(), extra);
    }
    let mut fuel = Fuel::new(7);
    assert_eq!(euf.check_with_budget(&atoms, &mut fuel), EufCheckOutcome::Interrupted);
    assert_eq!(fuel.remaining(), 0);

    let atoms = [TheoryAtom::Eq(a, b), TheoryAtom::Diseq(fa, fb)];
    let mut fuel = Fuel::new(26);
    let outcome = euf.check_with_budget(&atoms, &mut fuel);
    assert!(matches!(outcome, EufCheckOutcome::Conflict(_)));
    assert_eq!(fuel.remaining(), 0);
    let mut fuel = Fuel::new(25);
    assert_eq!(euf.check_with_budget(&atoms, &mut fuel), EufCheckOutcome::Interrupted);
}

#[test]
fn implied_atoms_are_propagated_and_counted() {
    let mut theory = EufTheory::new();
    let u_sort = theory.intern_sort(SortRef::Uninterpreted { name: "U" });
    let f = theory.intern_symbol(SymbolRef { name: "f", arg_sorts: &[u_sort], result_sort: u_sort });
    let a_sym = theory.intern_symbol(SymbolRef { name: "a", arg_sorts: &[], result_sort: u_sort });
    let b_sym = theory.intern_symbol(SymbolRef { name: "b", arg_sorts: &[], result_sort: u_sort });
    let a = theory.intern_term(TermRef::nullary(a_sym), u_sort);
    let b = theory.intern_term(TermRef::nullary(b_sym), u_sort);
    let fa = theory.intern_term(TermRef { fun: f, args: &[a] }, u_sort);
    let fb = theory.intern_term(TermRef { fun: f, args: &[b] }, u_sort);
    let ab = Var(0);
    let fafb = Var(1);
    theory.intern_equality_atom(a, b, ab);
    theory.intern_equality_atom(fa, fb, fafb);

    theory.notify_search_start();
    theory.notify_assignment(bool_lit(ab));
    let mut out = Vec::new();
    theory.drain_clauses(&mut out);
    assert_eq!(out.len(), 1);
    assert_eq!(out[0].kind, TheoryClauseKind::PropagationExplanation);
    assert_eq!(out[0].lits, vec![neg_bool_lit(ab), bool_lit(fafb)]);

    theory.notify_assignment(neg_bool_lit(fafb));
    theory.final_check(&mut out);
    assert_eq!(out.len(), 2);
    assert_eq!(out[1].kind, TheoryClauseKind::ConflictExplanation);

    let counters = theory.take_counters();
    assert_eq!(counters.input_equalities, 1);
    assert_eq!(counters.input_disequalities, 1);
    assert_eq!(counters.congruence_merges, 1);
    assert_eq!(counters.theory_propagations, 1);
    assert_eq!(counters.theory_conflicts, 1);
    let counters = theory.take_counters();
    assert_eq!(counters.input_equalities, 0);
    assert_eq!(counters.theory_conflicts, 0);
}

#[test]
fn backtracking_lets_an_atom_be_propagated_again() {
    let mut theory = EufTheory::new();
    let u_sort = theory.intern_sort(SortRef::Uninterpreted { name: "U" });
    let terms: Vec<_> = ["a", "b", "c"]
        .iter()
        .map(|name| {
            let symbol =
                theory.intern_symbol(SymbolRef { name, arg_sorts: &[], result_sort: u_sort });
            theory.intern_term(TermRef::nullary(symbol), u_sort)
        })
        .collect();
    theory.intern_equality_atom(terms[0], terms[1], Var(0));
    theory.intern_equality_atom(terms[1], terms[2], Var(1));
    theory.intern_equality_atom(terms[0], terms[2], Var(2));
    theory.notify_search_start();
    for _ in 0..2 {
        theory.notify_new_level();
        theory.notify_assignment(bool_lit(Var(0)));
        theory.notify_assignment(bool_lit(Var(1)));
        let mut out = Vec::new();
        theory.drain_clauses(&mut out);
        assert_eq!(out.len(), 1);
        assert_eq!(out[0].lits.last(), Some(&bool_lit(Var(2))));
        theory.notify_backtrack(0);
    }
}
