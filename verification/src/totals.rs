//! What holds of a summary of samples, field by field.

use crate::sums::sum_to;
use crate::telemetry::{
    euf_peak, euf_total, sat_peak, sat_total, EufCounter, EufGauge, Sample, SatCounter, SatGauge,
    Summary,
};
use vstd::prelude::*;

verus! {

/// The number is the sum of a measure over all samples.
pub open spec fn is_sum(samples: Seq<Sample>, measure: spec_fn(Sample) -> u64, total: u64) -> bool {
    total == sum_to(
        samples.map_values(|s: Sample| measure(s) as nat),
        samples.len() as int,
    )
}

/// The number is the largest value of a measure over all samples.
pub open spec fn is_largest(samples: Seq<Sample>, measure: spec_fn(Sample) -> u64, peak: u64) -> bool {
    &&& forall|i: int| 0 <= i < samples.len() ==> measure(#[trigger] samples[i]) <= peak
    &&& exists|i: int| 0 <= i < samples.len() && measure(#[trigger] samples[i]) == peak
}

proof fn lemma_sat_sum(samples: Seq<Sample>, field: SatCounter, measure: spec_fn(Sample) -> u64, n: nat)
    requires
        n <= samples.len(),
        forall|s: Sample| #[trigger] measure(s) == s.counters.sat.get(field),
    ensures
        sat_total(samples, field, n) == sum_to(
            samples.map_values(|s: Sample| measure(s) as nat),
            n as int,
        ),
    decreases n,
{
    if n > 0 {
        lemma_sat_sum(samples, field, measure, (n - 1) as nat);
    }
}

proof fn lemma_sat_largest(
    samples: Seq<Sample>,
    field: SatGauge,
    measure: spec_fn(Sample) -> u64,
    n: nat,
)
    requires
        0 < n <= samples.len(),
        forall|s: Sample| #[trigger] measure(s) == s.gauges.sat.get(field),
    ensures
        forall|i: int|
            0 <= i < n ==> measure(#[trigger] samples[i]) <= sat_peak(samples, field, n),
        exists|i: int|
            0 <= i < n && measure(#[trigger] samples[i]) == sat_peak(samples, field, n),
    decreases n,
{
    let last = samples[n - 1];
    assert(measure(last) == last.gauges.sat.get(field));
    if n > 1 {
        lemma_sat_largest(samples, field, measure, (n - 1) as nat);
        if measure(last) < sat_peak(samples, field, n) {
            let i = choose|i: int|
                0 <= i < n - 1 && measure(#[trigger] samples[i]) == sat_peak(
                    samples,
                    field,
                    (n - 1) as nat,
                );
            assert(measure(samples[i]) == sat_peak(samples, field, n));
        } else {
            assert(measure(samples[n - 1]) == sat_peak(samples, field, n));
        }
    } else {
        assert(sat_peak(samples, field, 0) == 0);
        assert(measure(samples[0]) == sat_peak(samples, field, n));
    }
}

proof fn lemma_euf_sum(samples: Seq<Sample>, field: EufCounter, measure: spec_fn(Sample) -> u64, n: nat)
    requires
        n <= samples.len(),
        forall|s: Sample| #[trigger] measure(s) == s.counters.euf.get(field),
    ensures
        euf_total(samples, field, n) == sum_to(
            samples.map_values(|s: Sample| measure(s) as nat),
            n as int,
        ),
    decreases n,
{
    if n > 0 {
        lemma_euf_sum(samples, field, measure, (n - 1) as nat);
    }
}

proof fn lemma_euf_largest(
    samples: Seq<Sample>,
    field: EufGauge,
    measure: spec_fn(Sample) -> u64,
    n: nat,
)
    requires
        0 < n <= samples.len(),
        forall|s: Sample| #[trigger] measure(s) == s.gauges.euf.get(field),
    ensures
        forall|i: int|
            0 <= i < n ==> measure(#[trigger] samples[i]) <= euf_peak(samples, field, n),
        exists|i: int|
            0 <= i < n && measure(#[trigger] samples[i]) == euf_peak(samples, field, n),
    decreases n,
{
    let last = samples[n - 1];
    assert(measure(last) == last.gauges.euf.get(field));
    if n > 1 {
        lemma_euf_largest(samples, field, measure, (n - 1) as nat);
        if measure(last) < euf_peak(samples, field, n) {
            let i = choose|i: int|
                0 <= i < n - 1 && measure(#[trigger] samples[i]) == euf_peak(
                    samples,
                    field,
                    (n - 1) as nat,
                );
            assert(measure(samples[i]) == euf_peak(samples, field, n));
        } else {
            assert(measure(samples[n - 1]) == euf_peak(samples, field, n));
        }
    } else {
        assert(euf_peak(samples, field, 0) == 0);
        assert(measure(samples[0]) == euf_peak(samples, field, n));
    }
}

/// Each total of a SAT summary is the sum of its counter over all samples.
pub proof fn lemma_sat_totals(summary: Summary, samples: Seq<Sample>)
    requires
        samples.len() > 0,
        summary.summarizes(samples),
    ensures
        is_sum(samples, |s: Sample| s.counters.sat.conflicts, summary.sat.total_conflicts),
        is_sum(samples, |s: Sample| s.counters.sat.propagations, summary.sat.total_propagations),
        is_sum(samples, |s: Sample| s.counters.sat.decisions, summary.sat.total_decisions),
        is_sum(samples, |s: Sample| s.counters.sat.restarts, summary.sat.total_restarts),
        is_sum(samples, |s: Sample| s.counters.sat.reductions, summary.sat.total_reductions),
        is_sum(samples, |s: Sample| s.counters.sat.learnt_clauses, summary.sat.total_learnt_clauses),
        is_sum(samples, |s: Sample| s.counters.sat.deleted_clauses, summary.sat.total_deleted_clauses),
{
    lemma_sat_sum(
        samples,
        SatCounter::Conflicts,
        |s: Sample| s.counters.sat.conflicts,
        samples.len(),
    );
    assert(summary.sat.total(SatCounter::Conflicts) == summary.sat.total_conflicts);
    lemma_sat_sum(
        samples,
        SatCounter::Propagations,
        |s: Sample| s.counters.sat.propagations,
        samples.len(),
    );
    assert(summary.sat.total(SatCounter::Propagations) == summary.sat.total_propagations);
    lemma_sat_sum(
        samples,
        SatCounter::Decisions,
        |s: Sample| s.counters.sat.decisions,
        samples.len(),
    );
    assert(summary.sat.total(SatCounter::Decisions) == summary.sat.total_decisions);
    lemma_sat_sum(
        samples,
        SatCounter::Restarts,
        |s: Sample| s.counters.sat.restarts,
        samples.len(),
    );
    assert(summary.sat.total(SatCounter::Restarts) == summary.sat.total_restarts);
    lemma_sat_sum(
        samples,
        SatCounter::Reductions,
        |s: Sample| s.counters.sat.reductions,
        samples.len(),
    );
    assert(summary.sat.total(SatCounter::Reductions) == summary.sat.total_reductions);
    lemma_sat_sum(
        samples,
        SatCounter::LearntClauses,
        |s: Sample| s.counters.sat.learnt_clauses,
        samples.len(),
    );
    assert(summary.sat.total(SatCounter::LearntClauses) == summary.sat.total_learnt_clauses);
    lemma_sat_sum(
        samples,
        SatCounter::DeletedClauses,
        |s: Sample| s.counters.sat.deleted_clauses,
        samples.len(),
    );
    assert(summary.sat.total(SatCounter::DeletedClauses) == summary.sat.total_deleted_clauses);
}

/// Each peak of a SAT summary is the largest value of its gauge over all samples.
pub proof fn lemma_sat_peaks(summary: Summary, samples: Seq<Sample>)
    requires
        samples.len() > 0,
        summary.summarizes(samples),
    ensures
        is_largest(samples, |s: Sample| s.gauges.sat.decision_level, summary.sat.peak_decision_level),
        is_largest(samples, |s: Sample| s.gauges.sat.assigned_vars, summary.sat.peak_assigned_vars),
        is_largest(samples, |s: Sample| s.gauges.sat.trail_len, summary.sat.peak_trail_len),
        is_largest(samples, |s: Sample| s.gauges.sat.pending_propagations, summary.sat.peak_pending_propagations),
        is_largest(samples, |s: Sample| s.gauges.sat.live_irredundant_clauses, summary.sat.peak_live_irredundant_clauses),
        is_largest(samples, |s: Sample| s.gauges.sat.live_learnt_clauses, summary.sat.peak_live_learnt_clauses),
        is_largest(samples, |s: Sample| s.gauges.sat.watcher_entries, summary.sat.peak_watcher_entries),
        is_largest(samples, |s: Sample| s.gauges.sat.clause_words, summary.sat.peak_clause_words),
        is_largest(samples, |s: Sample| s.gauges.sat.wasted_clause_words, summary.sat.peak_wasted_clause_words),
{
    lemma_sat_largest(
        samples,
        SatGauge::DecisionLevel,
        |s: Sample| s.gauges.sat.decision_level,
        samples.len(),
    );
    assert(summary.sat.peak(SatGauge::DecisionLevel) == summary.sat.peak_decision_level);
    lemma_sat_largest(
        samples,
        SatGauge::AssignedVars,
        |s: Sample| s.gauges.sat.assigned_vars,
        samples.len(),
    );
    assert(summary.sat.peak(SatGauge::AssignedVars) == summary.sat.peak_assigned_vars);
    lemma_sat_largest(
        samples,
        SatGauge::TrailLen,
        |s: Sample| s.gauges.sat.trail_len,
        samples.len(),
    );
    assert(summary.sat.peak(SatGauge::TrailLen) == summary.sat.peak_trail_len);
    lemma_sat_largest(
        samples,
        SatGauge::PendingPropagations,
        |s: Sample| s.gauges.sat.pending_propagations,
        samples.len(),
    );
    assert(summary.sat.peak(SatGauge::PendingPropagations) == summary.sat.peak_pending_propagations);
    lemma_sat_largest(
        samples,
        SatGauge::LiveIrredundantClauses,
        |s: Sample| s.gauges.sat.live_irredundant_clauses,
        samples.len(),
    );
    assert(summary.sat.peak(SatGauge::LiveIrredundantClauses) == summary.sat.peak_live_irredundant_clauses);
    lemma_sat_largest(
        samples,
        SatGauge::LiveLearntClauses,
        |s: Sample| s.gauges.sat.live_learnt_clauses,
        samples.len(),
    );
    assert(summary.sat.peak(SatGauge::LiveLearntClauses) == summary.sat.peak_live_learnt_clauses);
    lemma_sat_largest(
        samples,
        SatGauge::WatcherEntries,
        |s: Sample| s.gauges.sat.watcher_entries,
        samples.len(),
    );
    assert(summary.sat.peak(SatGauge::WatcherEntries) == summary.sat.peak_watcher_entries);
    lemma_sat_largest(
        samples,
        SatGauge::ClauseWords,
        |s: Sample| s.gauges.sat.clause_words,
        samples.len(),
    );
    assert(summary.sat.peak(SatGauge::ClauseWords) == summary.sat.peak_clause_words);
    lemma_sat_largest(
        samples,
        SatGauge::WastedClauseWords,
        |s: Sample| s.gauges.sat.wasted_clause_words,
        samples.len(),
    );
    assert(summary.sat.peak(SatGauge::WastedClauseWords) == summary.sat.peak_wasted_clause_words);
}

/// Each total of a EUF summary is the sum of its counter over all samples.
pub proof fn lemma_euf_totals(summary: Summary, samples: Seq<Sample>)
    requires
        samples.len() > 0,
        summary.summarizes(samples),
    ensures
        is_sum(samples, |s: Sample| s.counters.euf.input_equalities, summary.euf.total_input_equalities),
        is_sum(samples, |s: Sample| s.counters.euf.input_disequalities, summary.euf.total_input_disequalities),
        is_sum(samples, |s: Sample| s.counters.euf.congruence_merges, summary.euf.total_congruence_merges),
        is_sum(samples, |s: Sample| s.counters.euf.theory_propagations, summary.euf.total_theory_propagations),
        is_sum(samples, |s: Sample| s.counters.euf.theory_conflicts, summary.euf.total_theory_conflicts),
{
    lemma_euf_sum(
        samples,
        EufCounter::InputEqualities,
        |s: Sample| s.counters.euf.input_equalities,
        samples.len(),
    );
    assert(summary.euf.total(EufCounter::InputEqualities) == summary.euf.total_input_equalities);
    lemma_euf_sum(
        samples,
        EufCounter::InputDisequalities,
        |s: Sample| s.counters.euf.input_disequalities,
        samples.len(),
    );
    assert(summary.euf.total(EufCounter::InputDisequalities) == summary.euf.total_input_disequalities);
    lemma_euf_sum(
        samples,
        EufCounter::CongruenceMerges,
        |s: Sample| s.counters.euf.congruence_merges,
        samples.len(),
    );
    assert(summary.euf.total(EufCounter::CongruenceMerges) == summary.euf.total_congruence_merges);
    lemma_euf_sum(
        samples,
        EufCounter::TheoryPropagations,
        |s: Sample| s.counters.euf.theory_propagations,
        samples.len(),
    );
    assert(summary.euf.total(EufCounter::TheoryPropagations) == summary.euf.total_theory_propagations);
    lemma_euf_sum(
        samples,
        EufCounter::TheoryConflicts,
        |s: Sample| s.counters.euf.theory_conflicts,
        samples.len(),
    );
    assert(summary.euf.total(EufCounter::TheoryConflicts) == summary.euf.total_theory_conflicts);
}

/// Each peak of a EUF summary is the largest value of its gauge over all samples.
pub proof fn lemma_euf_peaks(summary: Summary, samples: Seq<Sample>)
    requires
        samples.len() > 0,
        summary.summarizes(samples),
    ensures
        is_largest(samples, |s: Sample| s.gauges.euf.registry_terms, summary.euf.peak_registry_terms),
        is_largest(samples, |s: Sample| s.gauges.euf.registry_atoms, summary.euf.peak_registry_atoms),
        is_largest(samples, |s: Sample| s.gauges.euf.pending_assignments, summary.euf.peak_pending_assignments),
        is_largest(samples, |s: Sample| s.gauges.euf.assigned_atoms, summary.euf.peak_assigned_atoms),
        is_largest(samples, |s: Sample| s.gauges.euf.pending_merges, summary.euf.peak_pending_merges),
        is_largest(samples, |s: Sample| s.gauges.euf.pending_repairs, summary.euf.peak_pending_repairs),
        is_largest(samples, |s: Sample| s.gauges.euf.pending_atom_triggers, summary.euf.peak_pending_atom_triggers),
        is_largest(samples, |s: Sample| s.gauges.euf.pending_theory_clauses, summary.euf.peak_pending_theory_clauses),
        is_largest(samples, |s: Sample| s.gauges.euf.active_disequalities, summary.euf.peak_active_disequalities),
        is_largest(samples, |s: Sample| s.gauges.euf.congruence_table_entries, summary.euf.peak_congruence_table_entries),
        is_largest(samples, |s: Sample| s.gauges.euf.proof_edges, summary.euf.peak_proof_edges),
{
    lemma_euf_largest(
        samples,
        EufGauge::RegistryTerms,
        |s: Sample| s.gauges.euf.registry_terms,
        samples.len(),
    );
    assert(summary.euf.peak(EufGauge::RegistryTerms) == summary.euf.peak_registry_terms);
    lemma_euf_largest(
        samples,
        EufGauge::RegistryAtoms,
        |s: Sample| s.gauges.euf.registry_atoms,
        samples.len(),
    );
    assert(summary.euf.peak(EufGauge::RegistryAtoms) == summary.euf.peak_registry_atoms);
    lemma_euf_largest(
        samples,
        EufGauge::PendingAssignments,
        |s: Sample| s.gauges.euf.pending_assignments,
        samples.len(),
    );
    assert(summary.euf.peak(EufGauge::PendingAssignments) == summary.euf.peak_pending_assignments);
    lemma_euf_largest(
        samples,
        EufGauge::AssignedAtoms,
        |s: Sample| s.gauges.euf.assigned_atoms,
        samples.len(),
    );
    assert(summary.euf.peak(EufGauge::AssignedAtoms) == summary.euf.peak_assigned_atoms);
    lemma_euf_largest(
        samples,
        EufGauge::PendingMerges,
        |s: Sample| s.gauges.euf.pending_merges,
        samples.len(),
    );
    assert(summary.euf.peak(EufGauge::PendingMerges) == summary.euf.peak_pending_merges);
    lemma_euf_largest(
        samples,
        EufGauge::PendingRepairs,
        |s: Sample| s.gauges.euf.pending_repairs,
        samples.len(),
    );
    assert(summary.euf.peak(EufGauge::PendingRepairs) == summary.euf.peak_pending_repairs);
    lemma_euf_largest(
        samples,
        EufGauge::PendingAtomTriggers,
        |s: Sample| s.gauges.euf.pending_atom_triggers,
        samples.len(),
    );
    assert(summary.euf.peak(EufGauge::PendingAtomTriggers) == summary.euf.peak_pending_atom_triggers);
    lemma_euf_largest(
        samples,
        EufGauge::PendingTheoryClauses,
        |s: Sample| s.gauges.euf.pending_theory_clauses,
        samples.len(),
    );
    assert(summary.euf.peak(EufGauge::PendingTheoryClauses) == summary.euf.peak_pending_theory_clauses);
    lemma_euf_largest(
        samples,
        EufGauge::ActiveDisequalities,
        |s: Sample| s.gauges.euf.active_disequalities,
        samples.len(),
    );
    assert(summary.euf.peak(EufGauge::ActiveDisequalities) == summary.euf.peak_active_disequalities);
    lemma_euf_largest(
        samples,
        EufGauge::CongruenceTableEntries,
        |s: Sample| s.gauges.euf.congruence_table_entries,
        samples.len(),
    );
    assert(summary.euf.peak(EufGauge::CongruenceTableEntries) == summary.euf.peak_congruence_table_entries);
    lemma_euf_largest(
        samples,
        EufGauge::ProofEdges,
        |s: Sample| s.gauges.euf.proof_edges,
        samples.len(),
    );
    assert(summary.euf.peak(EufGauge::ProofEdges) == summary.euf.peak_proof_edges);
}

/// The final values of a summary are those of the last sample.
pub proof fn lemma_final_values(summary: Summary, samples: Seq<Sample>)
    requires
        samples.len() > 0,
        summary.summarizes(samples),
    ensures
        summary.sample_count == samples.len(),
        summary.sat.final_decision_level == samples[samples.len() - 1].gauges.sat.decision_level,
        summary.sat.final_assigned_vars == samples[samples.len() - 1].gauges.sat.assigned_vars,
        summary.sat.final_trail_len == samples[samples.len() - 1].gauges.sat.trail_len,
        summary.sat.final_live_learnt_clauses == samples[samples.len() - 1].gauges.sat.live_learnt_clauses,
        summary.sat.final_live_irredundant_clauses == samples[samples.len() - 1].gauges.sat.live_irredundant_clauses,
        summary.euf.final_registry_terms == samples[samples.len() - 1].gauges.euf.registry_terms,
        summary.euf.final_registry_atoms == samples[samples.len() - 1].gauges.euf.registry_atoms,
        summary.euf.final_assigned_atoms == samples[samples.len() - 1].gauges.euf.assigned_atoms,
        summary.euf.final_active_disequalities == samples[samples.len() - 1].gauges.euf.active_disequalities,
{
}

} // verus!
