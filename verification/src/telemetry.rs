//! Low-overhead telemetry for one full solve session.
//!
//! One telemetry stream is a time-ordered list of periodic samples. Counters store deltas since the
//! previous emitted sample; gauges store a point-in-time snapshot at the sample boundary. The final
//! sample is emitted explicitly when the session ends.

use vstd::prelude::*;

verus! {

/// Nanoseconds between periodic telemetry samples unless another period is asked for.
pub const DEFAULT_SAMPLE_PERIOD_NANOS: u64 = 1_000_000_000;

/// SAT counter metrics accumulated between sample boundaries.
#[derive(Clone, Copy, Debug, Eq, PartialEq, Structural)]
pub struct SatCounters {
    /// Number of conflicts encountered since the previous sample.
    pub conflicts: u64,
    /// Number of propagated assignments enqueued since the previous sample.
    pub propagations: u64,
    /// Number of branching decisions made since the previous sample.
    pub decisions: u64,
    /// Number of restart events executed since the previous sample.
    pub restarts: u64,
    /// Number of learned-database reduction passes since the previous sample.
    pub reductions: u64,
    /// Number of learned clauses added since the previous sample.
    pub learnt_clauses: u64,
    /// Number of clauses deleted from the learned database since the previous sample.
    pub deleted_clauses: u64,
}

/// Names one field of [`SatCounters`].
pub enum SatCounter {
    /// Number of conflicts encountered since the previous sample.
    Conflicts,
    /// Number of propagated assignments enqueued since the previous sample.
    Propagations,
    /// Number of branching decisions made since the previous sample.
    Decisions,
    /// Number of restart events executed since the previous sample.
    Restarts,
    /// Number of learned-database reduction passes since the previous sample.
    Reductions,
    /// Number of learned clauses added since the previous sample.
    LearntClauses,
    /// Number of clauses deleted from the learned database since the previous sample.
    DeletedClauses,
}

impl SatCounters {
    /// The value of one field.
    pub open spec fn get(self, field: SatCounter) -> u64 {
        match field {
            SatCounter::Conflicts => self.conflicts,
            SatCounter::Propagations => self.propagations,
            SatCounter::Decisions => self.decisions,
            SatCounter::Restarts => self.restarts,
            SatCounter::Reductions => self.reductions,
            SatCounter::LearntClauses => self.learnt_clauses,
            SatCounter::DeletedClauses => self.deleted_clauses,
        }
    }

    /// Returns the value whose fields are all zero.
    pub fn zero() -> (zero: Self)
        ensures
            forall|field: SatCounter| #[trigger] zero.get(field) == 0,
    {
        SatCounters {
            conflicts: 0,
            propagations: 0,
            decisions: 0,
            restarts: 0,
            reductions: 0,
            learnt_clauses: 0,
            deleted_clauses: 0,
        }
    }
}

impl Default for SatCounters {
    fn default() -> (zero: Self)
        ensures
            forall|field: SatCounter| #[trigger] zero.get(field) == 0,
    {
        Self::zero()
    }
}

/// SAT gauge metrics sampled from the live solver state.
#[derive(Clone, Copy, Debug, Eq, PartialEq, Structural)]
pub struct SatGauges {
    /// Current decision level.
    pub decision_level: u64,
    /// Number of variables currently assigned.
    pub assigned_vars: u64,
    /// Length of the assignment trail.
    pub trail_len: u64,
    /// Number of queued-but-not-yet-propagated trail entries.
    pub pending_propagations: u64,
    /// Number of live irredundant long clauses.
    pub live_irredundant_clauses: u64,
    /// Number of live learned clauses.
    pub live_learnt_clauses: u64,
    /// Number of watcher entries across all watch lists.
    pub watcher_entries: u64,
    /// Number of literal words currently stored in the clause arena.
    pub clause_words: u64,
    /// Number of dead literal words awaiting compaction.
    pub wasted_clause_words: u64,
}

/// Names one field of [`SatGauges`].
pub enum SatGauge {
    /// Current decision level.
    DecisionLevel,
    /// Number of variables currently assigned.
    AssignedVars,
    /// Length of the assignment trail.
    TrailLen,
    /// Number of queued-but-not-yet-propagated trail entries.
    PendingPropagations,
    /// Number of live irredundant long clauses.
    LiveIrredundantClauses,
    /// Number of live learned clauses.
    LiveLearntClauses,
    /// Number of watcher entries across all watch lists.
    WatcherEntries,
    /// Number of literal words currently stored in the clause arena.
    ClauseWords,
    /// Number of dead literal words awaiting compaction.
    WastedClauseWords,
}

impl SatGauges {
    /// The value of one field.
    pub open spec fn get(self, field: SatGauge) -> u64 {
        match field {
            SatGauge::DecisionLevel => self.decision_level,
            SatGauge::AssignedVars => self.assigned_vars,
            SatGauge::TrailLen => self.trail_len,
            SatGauge::PendingPropagations => self.pending_propagations,
            SatGauge::LiveIrredundantClauses => self.live_irredundant_clauses,
            SatGauge::LiveLearntClauses => self.live_learnt_clauses,
            SatGauge::WatcherEntries => self.watcher_entries,
            SatGauge::ClauseWords => self.clause_words,
            SatGauge::WastedClauseWords => self.wasted_clause_words,
        }
    }

    /// Returns the value whose fields are all zero.
    pub fn zero() -> (zero: Self)
        ensures
            forall|field: SatGauge| #[trigger] zero.get(field) == 0,
    {
        SatGauges {
            decision_level: 0,
            assigned_vars: 0,
            trail_len: 0,
            pending_propagations: 0,
            live_irredundant_clauses: 0,
            live_learnt_clauses: 0,
            watcher_entries: 0,
            clause_words: 0,
            wasted_clause_words: 0,
        }
    }
}

impl Default for SatGauges {
    fn default() -> (zero: Self)
        ensures
            forall|field: SatGauge| #[trigger] zero.get(field) == 0,
    {
        Self::zero()
    }
}

/// EUF counter metrics accumulated between sample boundaries.
#[derive(Clone, Copy, Debug, Eq, PartialEq, Structural)]
pub struct EufCounters {
    /// Number of asserted input equalities processed since the previous sample.
    pub input_equalities: u64,
    /// Number of asserted input disequalities processed since the previous sample.
    pub input_disequalities: u64,
    /// Number of congruence-driven merges performed since the previous sample.
    pub congruence_merges: u64,
    /// Number of theory propagation clauses emitted since the previous sample.
    pub theory_propagations: u64,
    /// Number of theory conflict clauses emitted since the previous sample.
    pub theory_conflicts: u64,
}

/// Names one field of [`EufCounters`].
pub enum EufCounter {
    /// Number of asserted input equalities processed since the previous sample.
    InputEqualities,
    /// Number of asserted input disequalities processed since the previous sample.
    InputDisequalities,
    /// Number of congruence-driven merges performed since the previous sample.
    CongruenceMerges,
    /// Number of theory propagation clauses emitted since the previous sample.
    TheoryPropagations,
    /// Number of theory conflict clauses emitted since the previous sample.
    TheoryConflicts,
}

impl EufCounters {
    /// The value of one field.
    pub open spec fn get(self, field: EufCounter) -> u64 {
        match field {
            EufCounter::InputEqualities => self.input_equalities,
            EufCounter::InputDisequalities => self.input_disequalities,
            EufCounter::CongruenceMerges => self.congruence_merges,
            EufCounter::TheoryPropagations => self.theory_propagations,
            EufCounter::TheoryConflicts => self.theory_conflicts,
        }
    }

    /// Returns the value whose fields are all zero.
    pub fn zero() -> (zero: Self)
        ensures
            forall|field: EufCounter| #[trigger] zero.get(field) == 0,
    {
        EufCounters {
            input_equalities: 0,
            input_disequalities: 0,
            congruence_merges: 0,
            theory_propagations: 0,
            theory_conflicts: 0,
        }
    }
}

impl Default for EufCounters {
    fn default() -> (zero: Self)
        ensures
            forall|field: EufCounter| #[trigger] zero.get(field) == 0,
    {
        Self::zero()
    }
}

/// EUF gauge metrics sampled from the live theory state.
#[derive(Clone, Copy, Debug, Eq, PartialEq, Structural)]
pub struct EufGauges {
    /// Number of canonical terms in the permanent registry.
    pub registry_terms: u64,
    /// Number of canonical theory atoms in the permanent registry.
    pub registry_atoms: u64,
    /// Number of SAT assignments buffered for EUF processing.
    pub pending_assignments: u64,
    /// Number of theory atoms currently assigned on the EUF trail.
    pub assigned_atoms: u64,
    /// Number of pending merge inputs.
    pub pending_merges: u64,
    /// Number of pending congruence repairs.
    pub pending_repairs: u64,
    /// Number of pending atom triggers not yet processed.
    pub pending_atom_triggers: u64,
    /// Number of pending theory clauses buffered for SAT.
    pub pending_theory_clauses: u64,
    /// Number of active disequalities currently tracked.
    pub active_disequalities: u64,
    /// Number of live congruence-table entries.
    pub congruence_table_entries: u64,
    /// Number of directed proof edges in the explanation graph.
    pub proof_edges: u64,
}

/// Names one field of [`EufGauges`].
pub enum EufGauge {
    /// Number of canonical terms in the permanent registry.
    RegistryTerms,
    /// Number of canonical theory atoms in the permanent registry.
    RegistryAtoms,
    /// Number of SAT assignments buffered for EUF processing.
    PendingAssignments,
    /// Number of theory atoms currently assigned on the EUF trail.
    AssignedAtoms,
    /// Number of pending merge inputs.
    PendingMerges,
    /// Number of pending congruence repairs.
    PendingRepairs,
    /// Number of pending atom triggers not yet processed.
    PendingAtomTriggers,
    /// Number of pending theory clauses buffered for SAT.
    PendingTheoryClauses,
    /// Number of active disequalities currently tracked.
    ActiveDisequalities,
    /// Number of live congruence-table entries.
    CongruenceTableEntries,
    /// Number of directed proof edges in the explanation graph.
    ProofEdges,
}

impl EufGauges {
    /// The value of one field.
    pub open spec fn get(self, field: EufGauge) -> u64 {
        match field {
            EufGauge::RegistryTerms => self.registry_terms,
            EufGauge::RegistryAtoms => self.registry_atoms,
            EufGauge::PendingAssignments => self.pending_assignments,
            EufGauge::AssignedAtoms => self.assigned_atoms,
            EufGauge::PendingMerges => self.pending_merges,
            EufGauge::PendingRepairs => self.pending_repairs,
            EufGauge::PendingAtomTriggers => self.pending_atom_triggers,
            EufGauge::PendingTheoryClauses => self.pending_theory_clauses,
            EufGauge::ActiveDisequalities => self.active_disequalities,
            EufGauge::CongruenceTableEntries => self.congruence_table_entries,
            EufGauge::ProofEdges => self.proof_edges,
        }
    }

    /// Returns the value whose fields are all zero.
    pub fn zero() -> (zero: Self)
        ensures
            forall|field: EufGauge| #[trigger] zero.get(field) == 0,
    {
        EufGauges {
            registry_terms: 0,
            registry_atoms: 0,
            pending_assignments: 0,
            assigned_atoms: 0,
            pending_merges: 0,
            pending_repairs: 0,
            pending_atom_triggers: 0,
            pending_theory_clauses: 0,
            active_disequalities: 0,
            congruence_table_entries: 0,
            proof_edges: 0,
        }
    }
}

impl Default for EufGauges {
    fn default() -> (zero: Self)
        ensures
            forall|field: EufGauge| #[trigger] zero.get(field) == 0,
    {
        Self::zero()
    }
}

/// Counter metrics accumulated between flushed samples.
#[derive(Clone, Copy, Debug, Eq, PartialEq, Structural)]
pub struct Counters {
    /// SAT-local counter deltas.
    pub sat: SatCounters,
    /// EUF-local counter deltas.
    pub euf: EufCounters,
}

/// Gauge metrics sampled from the live solver state.
#[derive(Clone, Copy, Debug, Eq, PartialEq, Structural)]
pub struct Gauges {
    /// SAT-local point-in-time gauges.
    pub sat: SatGauges,
    /// EUF-local point-in-time gauges.
    pub euf: EufGauges,
}

impl Counters {
    /// All counters are zero.
    pub open spec fn cleared(self) -> bool {
        &&& forall|field: SatCounter| #[trigger] self.sat.get(field) == 0
        &&& forall|field: EufCounter| #[trigger] self.euf.get(field) == 0
    }

    /// Returns the value whose counters are all zero.
    pub fn zero() -> (zero: Self)
        ensures
            zero.cleared(),
    {
        Counters { sat: SatCounters::zero(), euf: EufCounters::zero() }
    }
}

/// One periodic telemetry sample.
#[derive(Clone, Copy, Debug, Eq, PartialEq, Structural)]
pub struct Sample {
    /// Nanoseconds elapsed since the telemetry session started.
    pub elapsed_nanos: u64,
    /// Counter deltas accumulated since the previous sample.
    pub counters: Counters,
    /// Point-in-time gauges captured at the sample boundary.
    pub gauges: Gauges,
}

/// The sum of one SAT counter over the first `n` samples.
pub open spec fn sat_total(samples: Seq<Sample>, field: SatCounter, n: nat) -> nat
    decreases n,
{
    if n == 0 {
        0
    } else {
        sat_total(samples, field, (n - 1) as nat) + samples[n - 1].counters.sat.get(field) as nat
    }
}

/// The sum of one EUF counter over the first `n` samples.
pub open spec fn euf_total(samples: Seq<Sample>, field: EufCounter, n: nat) -> nat
    decreases n,
{
    if n == 0 {
        0
    } else {
        euf_total(samples, field, (n - 1) as nat) + samples[n - 1].counters.euf.get(field) as nat
    }
}

/// The highest value of one SAT gauge over the first `n` samples.
pub open spec fn sat_peak(samples: Seq<Sample>, field: SatGauge, n: nat) -> u64
    decreases n,
{
    if n == 0 {
        0
    } else {
        higher(sat_peak(samples, field, (n - 1) as nat), samples[n - 1].gauges.sat.get(field))
    }
}

/// The highest value of one EUF gauge over the first `n` samples.
pub open spec fn euf_peak(samples: Seq<Sample>, field: EufGauge, n: nat) -> u64
    decreases n,
{
    if n == 0 {
        0
    } else {
        higher(euf_peak(samples, field, (n - 1) as nat), samples[n - 1].gauges.euf.get(field))
    }
}

/// The higher of two numbers.
pub open spec fn higher(a: u64, b: u64) -> u64 {
    if a >= b {
        a
    } else {
        b
    }
}

/// Returns the higher of two numbers.
fn highest(a: u64, b: u64) -> (c: u64)
    ensures
        c == higher(a, b),
{
    if a >= b {
        a
    } else {
        b
    }
}

/// All counter sums fit their fields.
pub open spec fn totals_fit(samples: Seq<Sample>) -> bool {
    &&& forall|field: SatCounter| #[trigger]
        sat_total(samples, field, samples.len()) <= u64::MAX
    &&& forall|field: EufCounter| #[trigger]
        euf_total(samples, field, samples.len()) <= u64::MAX
}

/// Sums only grow with more samples.
pub proof fn lemma_totals_grow(samples: Seq<Sample>, m: nat, n: nat)
    requires
        m <= n,
    ensures
        forall|field: SatCounter| #[trigger]
            sat_total(samples, field, m) <= sat_total(samples, field, n),
        forall|field: EufCounter| #[trigger]
            euf_total(samples, field, m) <= euf_total(samples, field, n),
    decreases n,
{
    if m < n {
        lemma_totals_grow(samples, m, (n - 1) as nat);
        assert forall|field: SatCounter| #[trigger] sat_total(samples, field, m) <= sat_total(
            samples,
            field,
            n,
        ) by {
            assert(sat_total(samples, field, m) <= sat_total(samples, field, (n - 1) as nat));
        }
        assert forall|field: EufCounter| #[trigger] euf_total(samples, field, m) <= euf_total(
            samples,
            field,
            n,
        ) by {
            assert(euf_total(samples, field, m) <= euf_total(samples, field, (n - 1) as nat));
        }
    }
}

/// Peaks are reached by some sample, or are zero.
pub proof fn lemma_peak_reached(samples: Seq<Sample>, field: SatGauge, n: nat)
    ensures
        forall|i: int|
            0 <= i < n ==> (#[trigger] samples[i]).gauges.sat.get(field) <= sat_peak(
                samples,
                field,
                n,
            ),
        sat_peak(samples, field, n) == 0 || exists|i: int|
            0 <= i < n && (#[trigger] samples[i]).gauges.sat.get(field) == sat_peak(
                samples,
                field,
                n,
            ),
    decreases n,
{
    if n > 0 {
        lemma_peak_reached(samples, field, (n - 1) as nat);
        assert(samples[n - 1].gauges.sat.get(field) <= sat_peak(samples, field, n));
        if sat_peak(samples, field, n) != 0 {
            if sat_peak(samples, field, n) != samples[n - 1].gauges.sat.get(field) {
                let i = choose|i: int|
                    0 <= i < n - 1 && (#[trigger] samples[i]).gauges.sat.get(field) == sat_peak(
                        samples,
                        field,
                        (n - 1) as nat,
                    );
                assert(samples[i].gauges.sat.get(field) == sat_peak(samples, field, n));
            }
        }
    }
}

/// Aggregate SAT telemetry derived from one case's sample stream.
#[derive(Clone, Copy, Debug, Eq, PartialEq, Structural)]
pub struct SatSummary {
    /// Total conflicts across all samples.
    pub total_conflicts: u64,
    /// Total propagated assignments across all samples.
    pub total_propagations: u64,
    /// Total branching decisions across all samples.
    pub total_decisions: u64,
    /// Total restart events across all samples.
    pub total_restarts: u64,
    /// Total learned-database reductions across all samples.
    pub total_reductions: u64,
    /// Total learned clauses added across all samples.
    pub total_learnt_clauses: u64,
    /// Total clauses deleted across all samples.
    pub total_deleted_clauses: u64,
    /// Highest sampled decision level.
    pub peak_decision_level: u64,
    /// Highest sampled assigned-variable count.
    pub peak_assigned_vars: u64,
    /// Highest sampled trail length.
    pub peak_trail_len: u64,
    /// Highest sampled propagation-queue depth.
    pub peak_pending_propagations: u64,
    /// Highest sampled irredundant long-clause count.
    pub peak_live_irredundant_clauses: u64,
    /// Highest sampled learned-clause count.
    pub peak_live_learnt_clauses: u64,
    /// Highest sampled watcher-entry count.
    pub peak_watcher_entries: u64,
    /// Highest sampled clause-arena literal payload.
    pub peak_clause_words: u64,
    /// Highest sampled dead literal payload.
    pub peak_wasted_clause_words: u64,
    /// Final sampled decision level.
    pub final_decision_level: u64,
    /// Final sampled assigned-variable count.
    pub final_assigned_vars: u64,
    /// Final sampled trail length.
    pub final_trail_len: u64,
    /// Final sampled learned-clause count.
    pub final_live_learnt_clauses: u64,
    /// Final sampled irredundant long-clause count.
    pub final_live_irredundant_clauses: u64,
}

impl SatSummary {
    /// The sum of one counter.
    pub open spec fn total(self, field: SatCounter) -> u64 {
        match field {
            SatCounter::Conflicts => self.total_conflicts,
            SatCounter::Propagations => self.total_propagations,
            SatCounter::Decisions => self.total_decisions,
            SatCounter::Restarts => self.total_restarts,
            SatCounter::Reductions => self.total_reductions,
            SatCounter::LearntClauses => self.total_learnt_clauses,
            SatCounter::DeletedClauses => self.total_deleted_clauses,
        }
    }

    /// The peak of one gauge.
    pub open spec fn peak(self, field: SatGauge) -> u64 {
        match field {
            SatGauge::DecisionLevel => self.peak_decision_level,
            SatGauge::AssignedVars => self.peak_assigned_vars,
            SatGauge::TrailLen => self.peak_trail_len,
            SatGauge::PendingPropagations => self.peak_pending_propagations,
            SatGauge::LiveIrredundantClauses => self.peak_live_irredundant_clauses,
            SatGauge::LiveLearntClauses => self.peak_live_learnt_clauses,
            SatGauge::WatcherEntries => self.peak_watcher_entries,
            SatGauge::ClauseWords => self.peak_clause_words,
            SatGauge::WastedClauseWords => self.peak_wasted_clause_words,
        }
    }

    /// The final gauges are those of the given snapshot.
    pub open spec fn ends_with(self, gauges: SatGauges) -> bool {
        &&& self.final_decision_level == gauges.decision_level
        &&& self.final_assigned_vars == gauges.assigned_vars
        &&& self.final_trail_len == gauges.trail_len
        &&& self.final_live_learnt_clauses == gauges.live_learnt_clauses
        &&& self.final_live_irredundant_clauses == gauges.live_irredundant_clauses
    }

    /// Builds one summary seeded from the final gauge snapshot.
    fn from_final_gauges(gauges: SatGauges) -> (summary: Self)
        ensures
            summary.ends_with(gauges),
            forall|field: SatCounter| #[trigger] summary.total(field) == 0,
            forall|field: SatGauge| #[trigger] summary.peak(field) == 0,
    {
        SatSummary {
            total_conflicts: 0,
            total_propagations: 0,
            total_decisions: 0,
            total_restarts: 0,
            total_reductions: 0,
            total_learnt_clauses: 0,
            total_deleted_clauses: 0,
            peak_decision_level: 0,
            peak_assigned_vars: 0,
            peak_trail_len: 0,
            peak_pending_propagations: 0,
            peak_live_irredundant_clauses: 0,
            peak_live_learnt_clauses: 0,
            peak_watcher_entries: 0,
            peak_clause_words: 0,
            peak_wasted_clause_words: 0,
            final_decision_level: gauges.decision_level,
            final_assigned_vars: gauges.assigned_vars,
            final_trail_len: gauges.trail_len,
            final_live_learnt_clauses: gauges.live_learnt_clauses,
            final_live_irredundant_clauses: gauges.live_irredundant_clauses,
        }
    }

    /// Folds one sample into this aggregate summary.
    fn accumulate(&mut self, counters: SatCounters, gauges: SatGauges)
        requires
            forall|field: SatCounter| #[trigger]
                old(self).total(field) + counters.get(field) <= u64::MAX,
        ensures
            forall|field: SatCounter| #[trigger]
                final(self).total(field) == old(self).total(field) + counters.get(field),
            forall|field: SatGauge| #[trigger]
                final(self).peak(field) == higher(old(self).peak(field), gauges.get(field)),
            forall|g: SatGauges| #[trigger] old(self).ends_with(g) ==> final(self).ends_with(g),
    {
        proof {
            assert(self.total(SatCounter::Conflicts) + counters.get(SatCounter::Conflicts) <= u64::MAX);
            assert(self.total(SatCounter::Propagations) + counters.get(SatCounter::Propagations) <= u64::MAX);
            assert(self.total(SatCounter::Decisions) + counters.get(SatCounter::Decisions) <= u64::MAX);
            assert(self.total(SatCounter::Restarts) + counters.get(SatCounter::Restarts) <= u64::MAX);
            assert(self.total(SatCounter::Reductions) + counters.get(SatCounter::Reductions) <= u64::MAX);
            assert(self.total(SatCounter::LearntClauses) + counters.get(SatCounter::LearntClauses) <= u64::MAX);
            assert(self.total(SatCounter::DeletedClauses) + counters.get(SatCounter::DeletedClauses) <= u64::MAX);
        }
        self.total_conflicts = self.total_conflicts + counters.conflicts;
        self.total_propagations = self.total_propagations + counters.propagations;
        self.total_decisions = self.total_decisions + counters.decisions;
        self.total_restarts = self.total_restarts + counters.restarts;
        self.total_reductions = self.total_reductions + counters.reductions;
        self.total_learnt_clauses = self.total_learnt_clauses + counters.learnt_clauses;
        self.total_deleted_clauses = self.total_deleted_clauses + counters.deleted_clauses;
        self.peak_decision_level = highest(self.peak_decision_level, gauges.decision_level);
        self.peak_assigned_vars = highest(self.peak_assigned_vars, gauges.assigned_vars);
        self.peak_trail_len = highest(self.peak_trail_len, gauges.trail_len);
        self.peak_pending_propagations = highest(self.peak_pending_propagations, gauges.pending_propagations);
        self.peak_live_irredundant_clauses = highest(self.peak_live_irredundant_clauses, gauges.live_irredundant_clauses);
        self.peak_live_learnt_clauses = highest(self.peak_live_learnt_clauses, gauges.live_learnt_clauses);
        self.peak_watcher_entries = highest(self.peak_watcher_entries, gauges.watcher_entries);
        self.peak_clause_words = highest(self.peak_clause_words, gauges.clause_words);
        self.peak_wasted_clause_words = highest(self.peak_wasted_clause_words, gauges.wasted_clause_words);
    }
}

impl Default for SatSummary {
    fn default() -> (summary: Self)
        ensures
            summary.final_decision_level == 0,
            summary.final_assigned_vars == 0,
            summary.final_trail_len == 0,
            summary.final_live_learnt_clauses == 0,
            summary.final_live_irredundant_clauses == 0,
            forall|field: SatCounter| #[trigger] summary.total(field) == 0,
            forall|field: SatGauge| #[trigger] summary.peak(field) == 0,
    {
        let gauges = SatGauges::zero();
        proof {
            assert(gauges.get(SatGauge::DecisionLevel) == 0);
            assert(gauges.get(SatGauge::AssignedVars) == 0);
            assert(gauges.get(SatGauge::TrailLen) == 0);
            assert(gauges.get(SatGauge::LiveLearntClauses) == 0);
            assert(gauges.get(SatGauge::LiveIrredundantClauses) == 0);
        }
        SatSummary::from_final_gauges(gauges)
    }
}

/// Aggregate EUF telemetry derived from one case's sample stream.
#[derive(Clone, Copy, Debug, Eq, PartialEq, Structural)]
pub struct EufSummary {
    /// Total asserted input equalities processed across all samples.
    pub total_input_equalities: u64,
    /// Total asserted input disequalities processed across all samples.
    pub total_input_disequalities: u64,
    /// Total congruence-driven merges across all samples.
    pub total_congruence_merges: u64,
    /// Total theory propagation clauses across all samples.
    pub total_theory_propagations: u64,
    /// Total theory conflict clauses across all samples.
    pub total_theory_conflicts: u64,
    /// Highest sampled registry-term count.
    pub peak_registry_terms: u64,
    /// Highest sampled registry-atom count.
    pub peak_registry_atoms: u64,
    /// Highest sampled pending-assignment count.
    pub peak_pending_assignments: u64,
    /// Highest sampled assigned-atom count.
    pub peak_assigned_atoms: u64,
    /// Highest sampled pending-merge count.
    pub peak_pending_merges: u64,
    /// Highest sampled pending-repair count.
    pub peak_pending_repairs: u64,
    /// Highest sampled pending-atom-trigger count.
    pub peak_pending_atom_triggers: u64,
    /// Highest sampled pending-theory-clause count.
    pub peak_pending_theory_clauses: u64,
    /// Highest sampled active-disequality count.
    pub peak_active_disequalities: u64,
    /// Highest sampled congruence-table size.
    pub peak_congruence_table_entries: u64,
    /// Highest sampled proof-edge count.
    pub peak_proof_edges: u64,
    /// Final sampled registry-term count.
    pub final_registry_terms: u64,
    /// Final sampled registry-atom count.
    pub final_registry_atoms: u64,
    /// Final sampled assigned-atom count.
    pub final_assigned_atoms: u64,
    /// Final sampled active-disequality count.
    pub final_active_disequalities: u64,
}

impl EufSummary {
    /// The sum of one counter.
    pub open spec fn total(self, field: EufCounter) -> u64 {
        match field {
            EufCounter::InputEqualities => self.total_input_equalities,
            EufCounter::InputDisequalities => self.total_input_disequalities,
            EufCounter::CongruenceMerges => self.total_congruence_merges,
            EufCounter::TheoryPropagations => self.total_theory_propagations,
            EufCounter::TheoryConflicts => self.total_theory_conflicts,
        }
    }

    /// The peak of one gauge.
    pub open spec fn peak(self, field: EufGauge) -> u64 {
        match field {
            EufGauge::RegistryTerms => self.peak_registry_terms,
            EufGauge::RegistryAtoms => self.peak_registry_atoms,
            EufGauge::PendingAssignments => self.peak_pending_assignments,
            EufGauge::AssignedAtoms => self.peak_assigned_atoms,
            EufGauge::PendingMerges => self.peak_pending_merges,
            EufGauge::PendingRepairs => self.peak_pending_repairs,
            EufGauge::PendingAtomTriggers => self.peak_pending_atom_triggers,
            EufGauge::PendingTheoryClauses => self.peak_pending_theory_clauses,
            EufGauge::ActiveDisequalities => self.peak_active_disequalities,
            EufGauge::CongruenceTableEntries => self.peak_congruence_table_entries,
            EufGauge::ProofEdges => self.peak_proof_edges,
        }
    }

    /// The final gauges are those of the given snapshot.
    pub open spec fn ends_with(self, gauges: EufGauges) -> bool {
        &&& self.final_registry_terms == gauges.registry_terms
        &&& self.final_registry_atoms == gauges.registry_atoms
        &&& self.final_assigned_atoms == gauges.assigned_atoms
        &&& self.final_active_disequalities == gauges.active_disequalities
    }

    /// Builds one summary seeded from the final gauge snapshot.
    fn from_final_gauges(gauges: EufGauges) -> (summary: Self)
        ensures
            summary.ends_with(gauges),
            forall|field: EufCounter| #[trigger] summary.total(field) == 0,
            forall|field: EufGauge| #[trigger] summary.peak(field) == 0,
    {
        EufSummary {
            total_input_equalities: 0,
            total_input_disequalities: 0,
            total_congruence_merges: 0,
            total_theory_propagations: 0,
            total_theory_conflicts: 0,
            peak_registry_terms: 0,
            peak_registry_atoms: 0,
            peak_pending_assignments: 0,
            peak_assigned_atoms: 0,
            peak_pending_merges: 0,
            peak_pending_repairs: 0,
            peak_pending_atom_triggers: 0,
            peak_pending_theory_clauses: 0,
            peak_active_disequalities: 0,
            peak_congruence_table_entries: 0,
            peak_proof_edges: 0,
            final_registry_terms: gauges.registry_terms,
            final_registry_atoms: gauges.registry_atoms,
            final_assigned_atoms: gauges.assigned_atoms,
            final_active_disequalities: gauges.active_disequalities,
        }
    }

    /// Folds one sample into this aggregate summary.
    fn accumulate(&mut self, counters: EufCounters, gauges: EufGauges)
        requires
            forall|field: EufCounter| #[trigger]
                old(self).total(field) + counters.get(field) <= u64::MAX,
        ensures
            forall|field: EufCounter| #[trigger]
                final(self).total(field) == old(self).total(field) + counters.get(field),
            forall|field: EufGauge| #[trigger]
                final(self).peak(field) == higher(old(self).peak(field), gauges.get(field)),
            forall|g: EufGauges| #[trigger] old(self).ends_with(g) ==> final(self).ends_with(g),
    {
        proof {
            assert(self.total(EufCounter::InputEqualities) + counters.get(EufCounter::InputEqualities) <= u64::MAX);
            assert(self.total(EufCounter::InputDisequalities) + counters.get(EufCounter::InputDisequalities) <= u64::MAX);
            assert(self.total(EufCounter::CongruenceMerges) + counters.get(EufCounter::CongruenceMerges) <= u64::MAX);
            assert(self.total(EufCounter::TheoryPropagations) + counters.get(EufCounter::TheoryPropagations) <= u64::MAX);
            assert(self.total(EufCounter::TheoryConflicts) + counters.get(EufCounter::TheoryConflicts) <= u64::MAX);
        }
        self.total_input_equalities = self.total_input_equalities + counters.input_equalities;
        self.total_input_disequalities = self.total_input_disequalities + counters.input_disequalities;
        self.total_congruence_merges = self.total_congruence_merges + counters.congruence_merges;
        self.total_theory_propagations = self.total_theory_propagations + counters.theory_propagations;
        self.total_theory_conflicts = self.total_theory_conflicts + counters.theory_conflicts;
        self.peak_registry_terms = highest(self.peak_registry_terms, gauges.registry_terms);
        self.peak_registry_atoms = highest(self.peak_registry_atoms, gauges.registry_atoms);
        self.peak_pending_assignments = highest(self.peak_pending_assignments, gauges.pending_assignments);
        self.peak_assigned_atoms = highest(self.peak_assigned_atoms, gauges.assigned_atoms);
        self.peak_pending_merges = highest(self.peak_pending_merges, gauges.pending_merges);
        self.peak_pending_repairs = highest(self.peak_pending_repairs, gauges.pending_repairs);
        self.peak_pending_atom_triggers = highest(self.peak_pending_atom_triggers, gauges.pending_atom_triggers);
        self.peak_pending_theory_clauses = highest(self.peak_pending_theory_clauses, gauges.pending_theory_clauses);
        self.peak_active_disequalities = highest(self.peak_active_disequalities, gauges.active_disequalities);
        self.peak_congruence_table_entries = highest(self.peak_congruence_table_entries, gauges.congruence_table_entries);
        self.peak_proof_edges = highest(self.peak_proof_edges, gauges.proof_edges);
    }
}

impl Default for EufSummary {
    fn default() -> (summary: Self)
        ensures
            summary.final_registry_terms == 0,
            summary.final_registry_atoms == 0,
            summary.final_assigned_atoms == 0,
            summary.final_active_disequalities == 0,
            forall|field: EufCounter| #[trigger] summary.total(field) == 0,
            forall|field: EufGauge| #[trigger] summary.peak(field) == 0,
    {
        let gauges = EufGauges::zero();
        proof {
            assert(gauges.get(EufGauge::RegistryTerms) == 0);
            assert(gauges.get(EufGauge::RegistryAtoms) == 0);
            assert(gauges.get(EufGauge::AssignedAtoms) == 0);
            assert(gauges.get(EufGauge::ActiveDisequalities) == 0);
        }
        EufSummary::from_final_gauges(gauges)
    }
}

/// Aggregate telemetry derived from one case's emitted sample stream.
#[derive(Clone, Copy, Debug, Eq, PartialEq, Structural)]
pub struct Summary {
    /// Number of samples observed for the case.
    pub sample_count: u64,
    /// Aggregated SAT metrics.
    pub sat: SatSummary,
    /// Aggregated EUF metrics.
    pub euf: EufSummary,
}

impl Summary {
    /// Counters are the sums and peaks the maxima over the first `n` samples.
    pub open spec fn covers(self, samples: Seq<Sample>, n: nat) -> bool {
        &&& forall|field: SatCounter| #[trigger]
            self.sat.total(field) == sat_total(samples, field, n)
        &&& forall|field: EufCounter| #[trigger]
            self.euf.total(field) == euf_total(samples, field, n)
        &&& forall|field: SatGauge| #[trigger] self.sat.peak(field) == sat_peak(samples, field, n)
        &&& forall|field: EufGauge| #[trigger] self.euf.peak(field) == euf_peak(samples, field, n)
    }

    /// The summary holds the totals and peaks of all samples and the gauges of the last one.
    pub open spec fn summarizes(self, samples: Seq<Sample>) -> bool {
        &&& self.sample_count == samples.len()
        &&& self.covers(samples, samples.len())
        &&& self.sat.ends_with(samples.last().gauges.sat)
        &&& self.euf.ends_with(samples.last().gauges.euf)
    }

    /// Aggregates one full sample stream into one compact summary.
    pub fn from_samples(samples: &[Sample]) -> (summary: Option<Self>)
        requires
            totals_fit(samples@),
        ensures
            summary is None <==> samples@.len() == 0,
            summary matches Some(s) ==> s.summarizes(samples@),
    {
        if samples.len() == 0 {
            return None;
        }
        let last = samples[samples.len() - 1];
        let mut summary = Summary {
            sample_count: samples.len() as u64,
            sat: SatSummary::from_final_gauges(last.gauges.sat),
            euf: EufSummary::from_final_gauges(last.gauges.euf),
        };
        let mut i: usize = 0;
        while i < samples.len()
            invariant
                0 <= i <= samples@.len(),
                totals_fit(samples@),
                summary.sample_count == samples@.len(),
                summary.covers(samples@, i as nat),
                summary.sat.ends_with(last.gauges.sat),
                summary.euf.ends_with(last.gauges.euf),
            decreases samples@.len() - i,
        {
            let sample = samples[i];
            let ghost before = summary;
            proof {
                lemma_totals_grow(samples@, (i + 1) as nat, samples@.len());
                assert forall|field: SatCounter| #[trigger]
                    summary.sat.total(field) + sample.counters.sat.get(field) <= u64::MAX by {
                    assert(sat_total(samples@, field, (i + 1) as nat) <= sat_total(
                        samples@,
                        field,
                        samples@.len(),
                    ));
                }
                assert forall|field: EufCounter| #[trigger]
                    summary.euf.total(field) + sample.counters.euf.get(field) <= u64::MAX by {
                    assert(euf_total(samples@, field, (i + 1) as nat) <= euf_total(
                        samples@,
                        field,
                        samples@.len(),
                    ));
                }
            }
            summary.sat.accumulate(sample.counters.sat, sample.gauges.sat);
            summary.euf.accumulate(sample.counters.euf, sample.gauges.euf);
            proof {
                assert forall|field: SatCounter| #[trigger] summary.sat.total(field) == sat_total(
                    samples@,
                    field,
                    (i + 1) as nat,
                ) by {
                    assert(before.sat.total(field) == sat_total(samples@, field, i as nat));
                }
                assert forall|field: EufCounter| #[trigger] summary.euf.total(field) == euf_total(
                    samples@,
                    field,
                    (i + 1) as nat,
                ) by {
                    assert(before.euf.total(field) == euf_total(samples@, field, i as nat));
                }
                assert forall|field: SatGauge| #[trigger] summary.sat.peak(field) == sat_peak(
                    samples@,
                    field,
                    (i + 1) as nat,
                ) by {
                    assert(before.sat.peak(field) == sat_peak(samples@, field, i as nat));
                }
                assert forall|field: EufGauge| #[trigger] summary.euf.peak(field) == euf_peak(
                    samples@,
                    field,
                    (i + 1) as nat,
                ) by {
                    assert(before.euf.peak(field) == euf_peak(samples@, field, i as nat));
                }
            }
            i += 1;
        }
        Some(summary)
    }
}

/// The telemetry state of one solving thread.
#[derive(Debug)]
pub struct Session {
    /// Counter deltas since the last emitted sample.
    pub counters: Counters,
    /// Number of live irredundant long clauses.
    pub live_irredundant_clauses: u64,
    /// Number of watcher entries across all watch lists.
    pub watcher_entries: u64,
    /// A sample has been asked for.
    pub sample_tick: bool,
    /// Emitted samples.
    pub samples: Vec<Sample>,
}

impl Session {
    /// Starts a session with all counters and gauges at zero.
    pub fn new() -> (session: Self)
        ensures
            session.counters.cleared(),
            session.live_irredundant_clauses == 0,
            session.watcher_entries == 0,
            !session.sample_tick,
            session.samples@.len() == 0,
    {
        Session {
            counters: Counters::zero(),
            live_irredundant_clauses: 0,
            watcher_entries: 0,
            sample_tick: false,
            samples: Vec::new(),
        }
    }

    /// Events of one SAT counter so far: those in emitted samples and those since the last one.
    pub open spec fn sat_events(&self, field: SatCounter) -> nat {
        sat_total(self.samples@, field, self.samples@.len()) + self.counters.sat.get(field) as nat
    }

    /// Events of one EUF counter so far: those in emitted samples and those since the last one.
    pub open spec fn euf_events(&self, field: EufCounter) -> nat {
        euf_total(self.samples@, field, self.samples@.len()) + self.counters.euf.get(field) as nat
    }

    /// Emits one sample: the counters go into it and start again at zero.
    ///
    /// No event is lost or counted twice.
    pub fn emit_sample(&mut self, elapsed_nanos: u64, gauges: Gauges)
        ensures
            final(self).samples@ == old(self).samples@.push(
                Sample { elapsed_nanos, counters: old(self).counters, gauges },
            ),
            final(self).counters.cleared(),
            final(self).sample_tick == old(self).sample_tick,
            final(self).live_irredundant_clauses == old(self).live_irredundant_clauses,
            final(self).watcher_entries == old(self).watcher_entries,
            forall|field: SatCounter| #[trigger]
                final(self).sat_events(field) == old(self).sat_events(field),
            forall|field: EufCounter| #[trigger]
                final(self).euf_events(field) == old(self).euf_events(field),
    {
        let sample = Sample { elapsed_nanos, counters: self.counters, gauges };
        let ghost before = self.samples@;
        self.samples.push(sample);
        self.counters = Counters::zero();
        proof {
            let n = before.len();
            assert forall|field: SatCounter| #[trigger] self.sat_events(field) == old(self).sat_events(field) by {
                lemma_sat_total_same(before, self.samples@, field, n);
            }
            assert forall|field: EufCounter| #[trigger] self.euf_events(field) == old(self).euf_events(field) by {
                lemma_euf_total_same(before, self.samples@, field, n);
            }
        }
    }
}

/// Emits one sample when one has been asked for.
pub fn maybe_emit_sample(session: &mut Session, elapsed_nanos: u64, gauges: Gauges)
    ensures
        !final(session).sample_tick,
        !old(session).sample_tick ==> *final(session) == *old(session),
        old(session).sample_tick ==> final(session).samples@ == old(session).samples@.push(
            Sample { elapsed_nanos, counters: old(session).counters, gauges },
        ) && final(session).counters.cleared(),
        final(session).live_irredundant_clauses == old(session).live_irredundant_clauses,
        final(session).watcher_entries == old(session).watcher_entries,
        forall|field: SatCounter| #[trigger]
            final(session).sat_events(field) == old(session).sat_events(field),
        forall|field: EufCounter| #[trigger]
            final(session).euf_events(field) == old(session).euf_events(field),
{
    if session.sample_tick {
        session.sample_tick = false;
        session.emit_sample(elapsed_nanos, gauges);
    }
}

proof fn lemma_sat_total_same(a: Seq<Sample>, b: Seq<Sample>, field: SatCounter, n: nat)
    requires
        n <= a.len(),
        n <= b.len(),
        forall|i: int| 0 <= i < n ==> #[trigger] a[i] == b[i],
    ensures
        sat_total(a, field, n) == sat_total(b, field, n),
    decreases n,
{
    if n > 0 {
        lemma_sat_total_same(a, b, field, (n - 1) as nat);
        assert(a[n - 1] == b[n - 1]);
    }
}

proof fn lemma_euf_total_same(a: Seq<Sample>, b: Seq<Sample>, field: EufCounter, n: nat)
    requires
        n <= a.len(),
        n <= b.len(),
        forall|i: int| 0 <= i < n ==> #[trigger] a[i] == b[i],
    ensures
        euf_total(a, field, n) == euf_total(b, field, n),
    decreases n,
{
    if n > 0 {
        lemma_euf_total_same(a, b, field, (n - 1) as nat);
        assert(a[n - 1] == b[n - 1]);
    }
}

/// A counter after so many more events: it stays at its largest value.
pub open spec fn counted(before: u64, events: int) -> u64 {
    if before + events <= u64::MAX {
        (before + events) as u64
    } else {
        u64::MAX
    }
}

/// Records one SAT conflict event.
pub fn record_sat_conflict(counters: &mut Counters)
    requires
        old(counters).sat.conflicts < u64::MAX,
    ensures
        *final(counters) == (Counters {
            sat: SatCounters {
                conflicts: (old(counters).sat.conflicts + 1) as u64,
                ..old(counters).sat
            },
            ..*old(counters)
        }),
{
    counters.sat.conflicts = counters.sat.conflicts + 1;
}

/// Records one SAT propagated assignment.
pub fn record_sat_propagation(counters: &mut Counters)
    requires
        old(counters).sat.propagations < u64::MAX,
    ensures
        *final(counters) == (Counters {
            sat: SatCounters {
                propagations: (old(counters).sat.propagations + 1) as u64,
                ..old(counters).sat
            },
            ..*old(counters)
        }),
{
    counters.sat.propagations = counters.sat.propagations + 1;
}

/// Records one SAT branching decision.
pub fn record_sat_decision(counters: &mut Counters)
    requires
        old(counters).sat.decisions < u64::MAX,
    ensures
        *final(counters) == (Counters {
            sat: SatCounters {
                decisions: (old(counters).sat.decisions + 1) as u64,
                ..old(counters).sat
            },
            ..*old(counters)
        }),
{
    counters.sat.decisions = counters.sat.decisions + 1;
}

/// Records one SAT restart.
pub fn record_sat_restart(counters: &mut Counters)
    requires
        old(counters).sat.restarts < u64::MAX,
    ensures
        *final(counters) == (Counters {
            sat: SatCounters {
                restarts: (old(counters).sat.restarts + 1) as u64,
                ..old(counters).sat
            },
            ..*old(counters)
        }),
{
    counters.sat.restarts = counters.sat.restarts + 1;
}

/// Records one SAT learned-database reduction.
pub fn record_sat_reduction(counters: &mut Counters)
    requires
        old(counters).sat.reductions < u64::MAX,
    ensures
        *final(counters) == (Counters {
            sat: SatCounters {
                reductions: (old(counters).sat.reductions + 1) as u64,
                ..old(counters).sat
            },
            ..*old(counters)
        }),
{
    counters.sat.reductions = counters.sat.reductions + 1;
}

/// Records one SAT learned clause insertion.
pub fn record_sat_learnt_clause(counters: &mut Counters)
    requires
        old(counters).sat.learnt_clauses < u64::MAX,
    ensures
        *final(counters) == (Counters {
            sat: SatCounters {
                learnt_clauses: (old(counters).sat.learnt_clauses + 1) as u64,
                ..old(counters).sat
            },
            ..*old(counters)
        }),
{
    counters.sat.learnt_clauses = counters.sat.learnt_clauses + 1;
}

/// Records one EUF input equality assignment.
pub fn record_euf_input_equality(counters: &mut Counters)
    requires
        old(counters).euf.input_equalities < u64::MAX,
    ensures
        *final(counters) == (Counters {
            euf: EufCounters {
                input_equalities: (old(counters).euf.input_equalities + 1) as u64,
                ..old(counters).euf
            },
            ..*old(counters)
        }),
{
    counters.euf.input_equalities = counters.euf.input_equalities + 1;
}

/// Records one EUF input disequality assignment.
pub fn record_euf_input_disequality(counters: &mut Counters)
    requires
        old(counters).euf.input_disequalities < u64::MAX,
    ensures
        *final(counters) == (Counters {
            euf: EufCounters {
                input_disequalities: (old(counters).euf.input_disequalities + 1) as u64,
                ..old(counters).euf
            },
            ..*old(counters)
        }),
{
    counters.euf.input_disequalities = counters.euf.input_disequalities + 1;
}

/// Records one congruence-driven EUF merge.
pub fn record_euf_congruence_merge(counters: &mut Counters)
    requires
        old(counters).euf.congruence_merges < u64::MAX,
    ensures
        *final(counters) == (Counters {
            euf: EufCounters {
                congruence_merges: (old(counters).euf.congruence_merges + 1) as u64,
                ..old(counters).euf
            },
            ..*old(counters)
        }),
{
    counters.euf.congruence_merges = counters.euf.congruence_merges + 1;
}

/// Records one EUF theory propagation clause.
pub fn record_euf_theory_propagation(counters: &mut Counters)
    requires
        old(counters).euf.theory_propagations < u64::MAX,
    ensures
        *final(counters) == (Counters {
            euf: EufCounters {
                theory_propagations: (old(counters).euf.theory_propagations + 1) as u64,
                ..old(counters).euf
            },
            ..*old(counters)
        }),
{
    counters.euf.theory_propagations = counters.euf.theory_propagations + 1;
}

/// Records one EUF theory conflict clause.
pub fn record_euf_theory_conflict(counters: &mut Counters)
    requires
        old(counters).euf.theory_conflicts < u64::MAX,
    ensures
        *final(counters) == (Counters {
            euf: EufCounters {
                theory_conflicts: (old(counters).euf.theory_conflicts + 1) as u64,
                ..old(counters).euf
            },
            ..*old(counters)
        }),
{
    counters.euf.theory_conflicts = counters.euf.theory_conflicts + 1;
}

/// Records `count` SAT clause deletions from a learned-database reduction.
pub fn record_sat_deleted_clauses(counters: &mut Counters, count: usize)
    requires
        old(counters).sat.deleted_clauses + count <= u64::MAX,
    ensures
        *final(counters) == (Counters {
            sat: SatCounters {
                deleted_clauses: (old(counters).sat.deleted_clauses + count) as u64,
                ..old(counters).sat
            },
            ..*old(counters)
        }),
{
    counters.sat.deleted_clauses = counters.sat.deleted_clauses + count as u64;
}

/// Initializes the SAT current-value gauges for one solver run.
pub fn initialize_sat_solver_gauges(
    session: &mut Session,
    live_irredundant_clauses: usize,
    watcher_entries: usize,
)
    ensures
        *final(session) == (Session {
            live_irredundant_clauses: live_irredundant_clauses as u64,
            watcher_entries: watcher_entries as u64,
            ..*old(session)
        }),
{
    session.live_irredundant_clauses = live_irredundant_clauses as u64;
    session.watcher_entries = watcher_entries as u64;
}

/// Increments the SAT watcher-entry gauge by `count`.
pub fn record_sat_added_watchers(session: &mut Session, count: usize)
    requires
        old(session).watcher_entries + count <= u64::MAX,
    ensures
        *final(session) == (Session {
            watcher_entries: (old(session).watcher_entries + count) as u64,
            ..*old(session)
        }),
{
    session.watcher_entries = session.watcher_entries + count as u64;
}

/// Decrements the SAT watcher-entry gauge by `count`.
pub fn record_sat_removed_watchers(session: &mut Session, count: usize)
    requires
        count <= old(session).watcher_entries,
    ensures
        *final(session) == (Session {
            watcher_entries: (old(session).watcher_entries - count) as u64,
            ..*old(session)
        }),
{
    session.watcher_entries = session.watcher_entries - count as u64;
}

/// Returns the current SAT irredundant long-clause count gauge.
pub fn sat_live_irredundant_clauses(session: &Session) -> (n: u64)
    ensures
        n == session.live_irredundant_clauses,
{
    session.live_irredundant_clauses
}

/// Returns the current SAT watcher-entry gauge.
pub fn sat_watcher_entries(session: &Session) -> (n: u64)
    ensures
        n == session.watcher_entries,
{
    session.watcher_entries
}

} // verus!
