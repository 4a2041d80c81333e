//! Tests of telemetry samples and summaries, and of the metrics demo.

use mysolver::observability;
use mysolver::telemetry::{
    initialize_sat_solver_gauges, maybe_emit_sample, record_euf_theory_conflict,
    record_sat_added_watchers, record_sat_conflict, record_sat_removed_watchers,
    sat_live_irredundant_clauses, sat_watcher_entries, Counters, EufCounters, EufGauges, Gauges,
    Sample, SatCounters, SatGauges, Session, Summary,
};

fn two_samples() -> [Sample; 2] {
    [
        Sample {
            elapsed_nanos: 500_000_000,
            counters: Counters {
                sat: SatCounters {
                    conflicts: 2,
                    propagations: 10,
                    decisions: 1,
                    restarts: 0,
                    reductions: 0,
                    learnt_clauses: 2,
                    deleted_clauses: 0,
                },
                euf: EufCounters {
                    input_equalities: 3,
                    input_disequalities: 1,
                    congruence_merges: 4,
                    theory_propagations: 2,
                    theory_conflicts: 0,
                },
            },
            gauges: Gauges {
                sat: SatGauges {
                    decision_level: 3,
                    assigned_vars: 8,
                    trail_len: 8,
                    pending_propagations: 2,
                    live_irredundant_clauses: 20,
                    live_learnt_clauses: 2,
                    watcher_entries: 40,
                    clause_words: 90,
                    wasted_clause_words: 0,
                },
                euf: EufGauges {
                    registry_terms: 11,
                    registry_atoms: 5,
                    pending_assignments: 1,
                    assigned_atoms: 3,
                    pending_merges: 2,
                    pending_repairs: 1,
                    pending_atom_triggers: 4,
                    pending_theory_clauses: 0,
                    active_disequalities: 1,
                    congruence_table_entries: 7,
                    proof_edges: 6,
                },
            },
        },
        Sample {
            elapsed_nanos: 1_000_000_000,
            counters: Counters {
                sat: SatCounters {
                    conflicts: 5,
                    propagations: 12,
                    decisions: 3,
                    restarts: 1,
                    reductions: 1,
                    learnt_clauses: 4,
                    deleted_clauses: 2,
                },
                euf: EufCounters {
                    input_equalities: 2,
                    input_disequalities: 0,
                    congruence_merges: 3,
                    theory_propagations: 1,
                    theory_conflicts: 1,
                },
            },
            gauges: Gauges {
                sat: SatGauges {
                    decision_level: 5,
                    assigned_vars: 11,
                    trail_len: 11,
                    pending_propagations: 4,
                    live_irredundant_clauses: 20,
                    live_learnt_clauses: 4,
                    watcher_entries: 48,
                    clause_words: 95,
                    wasted_clause_words: 3,
                },
                euf: EufGauges {
                    registry_terms: 13,
                    registry_atoms: 6,
                    pending_assignments: 0,
                    assigned_atoms: 4,
                    pending_merges: 1,
                    pending_repairs: 2,
                    pending_atom_triggers: 3,
                    pending_theory_clauses: 1,
                    active_disequalities: 2,
                    congruence_table_entries: 8,
                    proof_edges: 10,
                },
            },
        },
    ]
}

#[test]
fn summary_aggregates_samples() {
    let samples = two_samples();
    let summary = Summary::from_samples(&samples).expect("summary");
    assert_eq!(summary.sample_count, 2);
    assert_eq!(summary.sat.total_conflicts, 7);
    assert_eq!(summary.sat.total_propagations, 22);
    assert_eq!(summary.sat.total_decisions, 4);
    assert_eq!(summary.sat.peak_decision_level, 5);
    assert_eq!(summary.sat.final_live_learnt_clauses, 4);
    assert_eq!(summary.euf.total_input_equalities, 5);
    assert_eq!(summary.euf.total_congruence_merges, 7);
    assert_eq!(summary.euf.total_theory_conflicts, 1);
    assert_eq!(summary.euf.peak_registry_terms, 13);
    assert_eq!(summary.euf.peak_pending_atom_triggers, 4);
    assert_eq!(summary.euf.final_active_disequalities, 2);
}

#[test]
fn no_samples_have_no_summary() {
    assert_eq!(Summary::from_samples(&[]), None);
}

#[test]
fn every_event_reaches_one_sample() {
    let mut session = Session::new();
    record_sat_conflict(&mut session.counters);
    record_sat_conflict(&mut session.counters);
    record_euf_theory_conflict(&mut session.counters);
    session.emit_sample(10, Gauges { sat: SatGauges::zero(), euf: EufGauges::zero() });
    record_sat_conflict(&mut session.counters);
    session.emit_sample(20, Gauges { sat: SatGauges::zero(), euf: EufGauges::zero() });
    assert_eq!(session.samples.len(), 2);
    assert_eq!(session.samples[0].counters.sat.conflicts, 2);
    assert_eq!(session.samples[1].counters.sat.conflicts, 1);
    let summary = Summary::from_samples(&session.samples).expect("summary");
    assert_eq!(summary.sat.total_conflicts, 3);
    assert_eq!(summary.euf.total_theory_conflicts, 1);
}

#[test]
fn samples_wait_for_a_tick() {
    let mut session = Session::new();
    maybe_emit_sample(&mut session, 10, Gauges { sat: SatGauges::zero(), euf: EufGauges::zero() });
    assert_eq!(session.samples.len(), 0);
    session.sample_tick = true;
    maybe_emit_sample(&mut session, 20, Gauges { sat: SatGauges::zero(), euf: EufGauges::zero() });
    assert_eq!(session.samples.len(), 1);
    assert!(!session.sample_tick);
}

#[test]
fn watcher_entries_follow_their_changes() {
    let mut session = Session::new();
    initialize_sat_solver_gauges(&mut session, 7, 10);
    record_sat_added_watchers(&mut session, 5);
    record_sat_removed_watchers(&mut session, 3);
    assert_eq!(sat_live_irredundant_clauses(&session), 7);
    assert_eq!(sat_watcher_entries(&session), 12);
}

#[test]
fn demo_solver_counts_its_steps() {
    let mut solver = observability::Solver::new();
    let mut stats = observability::Stats::new();
    assert!(!solver.done());
    solver.step(&mut stats);
    assert_eq!(solver.remaining_steps, 1_999_999_999);
    assert_eq!(
        solver.rng,
        0x1234_5678_9abc_def0u64.wrapping_mul(6_364_136_223_846_793_005).wrapping_add(1)
    );
    assert_eq!(stats.propagations, 1 + (solver.rng & 7));
    let taken = stats.take_stats();
    assert_eq!(taken.steps, 1);
    assert_eq!(stats.steps, 0);
}
