//! Search-local congruence-closure state and rollback bookkeeping.

use crate::euf::classes::{ClassState, Classes};
use crate::euf::closure::{Context, Core, DisequalityEntry, MergeInput};
use crate::euf::ids::{EClassId, TermId, TheoryAtomId};
use crate::euf::proof_graph::{connected, every, MergeReason, ProofGraph};
use crate::euf::registry::{application, Registry};
use crate::euf::table::{
    copy_indices, pairs_clear, pairs_new, table_clear, table_entries, table_get, table_insert,
    table_new, table_remove, IndexTable, PairSet,
};
use crate::sat::{has_conflict, Lit, TheoryClause};
use std::collections::VecDeque;
use vstd::prelude::*;

verus! {

/// One input disequality waiting to become active.
#[derive(Debug, Clone, Copy, PartialEq, Eq, Structural)]
pub struct DiseqInput {
    /// Left term.
    pub lhs: TermId,
    /// Right term.
    pub rhs: TermId,
    /// Assigned literal justifying this disequality.
    pub reason_lit: Lit,
}

/// The result of merging two distinct equality classes.
#[derive(Debug, Clone, Copy, PartialEq, Eq, Structural)]
pub struct ClassMerge {
    /// Representative that remains live after the merge.
    pub survivor: EClassId,
    /// Representative whose class was absorbed.
    pub absorbed: EClassId,
    /// Violated active disequality found while scanning the absorbed class.
    pub disequality_conflict: Option<DisequalityEntry>,
}

/// One level rollback marker.
#[derive(Clone, Copy)]
pub struct LevelMarker {
    /// Undo-log length at level entry.
    pub undo_len: usize,
    /// Congruence-insert log length at level entry.
    pub congruence_insert_len: usize,
    /// Merge-edge length at level entry.
    pub merge_edges_len: usize,
    /// Active-disequality length at level entry.
    pub active_disequalities_len: usize,
    /// Disequality incidence-log length at level entry.
    pub disequality_incident_log_len: usize,
    /// Pending-merge queue length at level entry.
    pub pending_merges_len: usize,
    /// Pending-repair queue length at level entry.
    pub pending_repairs_len: usize,
    /// Pending-atom-trigger queue length at level entry.
    pub pending_atom_triggers_len: usize,
    /// Pending-clause queue length at level entry.
    pub pending_clauses_len: usize,
    /// Search-local atom-assignment trail length at level entry.
    pub atom_trail_len: usize,
    /// Whether no work waited and no disequality was violated.
    pub settled: Ghost<bool>,
}

/// Classes and congruence table at the start of one level.
#[verifier::ext_equal]
pub struct Snapshot {
    /// Equality classes.
    pub state: ClassState,
    /// Congruence table.
    pub table: Map<Seq<u32>, u32>,
}

/// The table before all but the first `len` logged insertions.
pub open spec fn unwind_table(
    table: Map<Seq<u32>, u32>,
    log: Seq<Seq<u32>>,
    len: int,
) -> Map<Seq<u32>, u32>
    decreases log.len(),
{
    if log.len() <= len || log.len() == 0 {
        table
    } else {
        unwind_table(table.remove(log.last()), log.drop_last(), len)
    }
}

proof fn lemma_unwind_table_push(
    table: Map<Seq<u32>, u32>,
    log: Seq<Seq<u32>>,
    key: Seq<u32>,
    owner: u32,
    len: int,
)
    requires
        !table.contains_key(key),
        0 <= len <= log.len(),
    ensures
        unwind_table(table.insert(key, owner), log.push(key), len) == unwind_table(table, log, len),
{
    assert(log.push(key).drop_last() =~= log);
    assert(table.insert(key, owner).remove(key) =~= table);
}

proof fn lemma_unwind_table_steps(
    table: Map<Seq<u32>, u32>,
    log: Seq<Seq<u32>>,
    mid: int,
    len: int,
)
    requires
        0 <= len <= mid <= log.len(),
    ensures
        unwind_table(unwind_table(table, log, mid), log.take(mid), len) == unwind_table(
            table,
            log,
            len,
        ),
    decreases log.len(),
{
    if log.len() > mid {
        lemma_unwind_table_steps(table.remove(log.last()), log.drop_last(), mid, len);
        assert(log.drop_last().take(mid) =~= log.take(mid));
    } else {
        assert(log.take(mid) =~= log);
    }
}

/// The indices of the disequalities with `t` on one side.
pub open spec fn incident(diseqs: Seq<DisequalityEntry>, t: int) -> Seq<usize>
    decreases diseqs.len(),
{
    if diseqs.len() == 0 {
        Seq::empty()
    } else {
        let rest = incident(diseqs.drop_last(), t);
        if diseqs.last().lhs.0 == t || diseqs.last().rhs.0 == t {
            rest.push((diseqs.len() - 1) as usize)
        } else {
            rest
        }
    }
}

/// The sides of all disequalities in order of appearance, equal sides once.
pub open spec fn incident_log(diseqs: Seq<DisequalityEntry>) -> Seq<(TermId, usize)>
    decreases diseqs.len(),
{
    if diseqs.len() == 0 {
        Seq::empty()
    } else {
        let i = (diseqs.len() - 1) as usize;
        let rest = incident_log(diseqs.drop_last()).push((diseqs.last().lhs, i));
        if diseqs.last().lhs != diseqs.last().rhs {
            rest.push((diseqs.last().rhs, i))
        } else {
            rest
        }
    }
}

proof fn lemma_incident_log_monotone(diseqs: Seq<DisequalityEntry>, len: int)
    requires
        0 <= len <= diseqs.len(),
    ensures
        incident_log(diseqs.take(len)).len() <= incident_log(diseqs).len(),
        len < diseqs.len() ==> incident_log(diseqs.take(len)).len() < incident_log(diseqs).len(),
    decreases diseqs.len(),
{
    if len < diseqs.len() {
        lemma_incident_log_monotone(diseqs.drop_last(), len);
        assert(diseqs.drop_last().take(len) =~= diseqs.take(len));
    } else {
        assert(diseqs.take(len) =~= diseqs);
    }
}

proof fn lemma_incident_member(diseqs: Seq<DisequalityEntry>, t: int)
    requires
        diseqs.len() <= usize::MAX,
    ensures
        forall|i: int|
            0 <= i < incident(diseqs, t).len() ==> (#[trigger] incident(diseqs, t)[i])
                < diseqs.len() && (diseqs[incident(diseqs, t)[i] as int].lhs.0 == t
                || diseqs[incident(diseqs, t)[i] as int].rhs.0 == t),
        forall|d: int|
            0 <= d < diseqs.len() && ((#[trigger] diseqs[d]).lhs.0 == t || diseqs[d].rhs.0 == t)
                ==> incident(diseqs, t).contains(d as usize),
    decreases diseqs.len(),
{
    if diseqs.len() > 0 {
        let rest = diseqs.drop_last();
        lemma_incident_member(rest, t);
        let list = incident(diseqs, t);
        assert forall|d: int|
            0 <= d < diseqs.len() && ((#[trigger] diseqs[d]).lhs.0 == t || diseqs[d].rhs.0
                == t) implies list.contains(d as usize) by {
            if d < rest.len() {
                assert(rest[d] == diseqs[d]);
                let i = choose|i: int|
                    0 <= i < incident(rest, t).len() && incident(rest, t)[i] == d as usize;
                assert(list[i] == d as usize);
            } else {
                assert(list[list.len() - 1] == d as usize);
            }
        }
        assert forall|i: int| 0 <= i < list.len() implies (#[trigger] list[i]) < diseqs.len() && (
        diseqs[list[i] as int].lhs.0 == t || diseqs[list[i] as int].rhs.0 == t) by {
            if i < incident(rest, t).len() {
                assert(list[i] == incident(rest, t)[i]);
                assert(rest[list[i] as int] == diseqs[list[i] as int]);
            }
        }
    }
}

/// Search-local equality engine state.
pub struct SearchState {
    /// Equality classes and their undo log.
    pub classes: Classes,
    /// Active equality-proof graph.
    pub graph: ProofGraph,
    /// Congruence table keyed by function symbol and current representative arguments.
    pub signatures: IndexTable,
    /// Congruence-table insertions in insertion order for rollback.
    pub signature_log: Vec<Vec<u32>>,
    /// Scratch buffer used while building congruence signatures.
    pub signature_scratch: Vec<u32>,
    /// Pending input merges still to process.
    pub pending_merges: VecDeque<MergeInput>,
    /// Assigned theory literals not yet processed.
    pub pending_assignments: VecDeque<Lit>,
    /// Parent applications that must be reconsidered.
    pub pending_repairs: VecDeque<TermId>,
    /// Theory atoms affected by recent class changes.
    pub pending_atom_triggers: Vec<TheoryAtomId>,
    /// Read cursor into `pending_atom_triggers`.
    pub pending_atom_qhead: usize,
    /// Per-atom queue-membership bit.
    pub atom_is_enqueued: Vec<bool>,
    /// Current search-local Boolean value for each theory atom.
    pub atom_values: Vec<Option<bool>>,
    /// Search-local assigned atom trail for rollback.
    pub atom_trail: Vec<TheoryAtomId>,
    /// Pending theory clauses ready to be handed out.
    pub pending_clauses: Vec<TheoryClause>,
    /// Currently active disequalities.
    pub active_disequalities: Vec<DisequalityEntry>,
    /// Active disequality indexes incident to each term.
    pub term_disequalities: Vec<Vec<usize>>,
    /// Rollback log for entries appended to `term_disequalities`.
    pub disequality_incident_log: Vec<(TermId, usize)>,
    /// Pair cache for one recursive equality explanation.
    pub explain_cache: PairSet,
    /// One marker per open level.
    pub level_markers: Vec<LevelMarker>,
    /// Processed literals, one for each entry of `atom_trail`.
    pub lits: Ghost<Seq<Lit>>,
    /// Classes and table at the start of each open level.
    pub snapshots: Ghost<Seq<Snapshot>>,
    /// Terms, atoms and bound variables of this search.
    pub ctx: Ghost<Context>,
}

/// The first `len` entries of each part of the state, with classes and table as in `snapshot`.
pub open spec fn core_at(s: &SearchState, marker: LevelMarker, snapshot: Snapshot) -> Core {
    Core {
        state: snapshot.state,
        table: snapshot.table,
        edges: s.graph.list().take(marker.merge_edges_len as int),
        diseqs: s.active_disequalities@.take(marker.active_disequalities_len as int),
        lits: s.lits@.take(marker.atom_trail_len as int),
        repairs: Seq::empty(),
        merges: Seq::empty(),
    }
}

/// The entries of marker `a` do not exceed those of marker `b`.
pub open spec fn marker_le(a: LevelMarker, b: LevelMarker) -> bool {
    &&& a.undo_len <= b.undo_len
    &&& a.congruence_insert_len <= b.congruence_insert_len
    &&& a.merge_edges_len <= b.merge_edges_len
    &&& a.active_disequalities_len <= b.active_disequalities_len
    &&& a.pending_atom_triggers_len <= b.pending_atom_triggers_len
    &&& a.atom_trail_len <= b.atom_trail_len
}

/// The atom waits for another look.
pub open spec fn waiting(triggers: Seq<TheoryAtomId>, qhead: int, a: int) -> bool {
    exists|k: int| qhead <= k < triggers.len() && (#[trigger] triggers[k]).0 == a
}

/// Every marked atom waits for another look.
#[verifier::opaque]
pub open spec fn queue_ok(marks: Seq<bool>, triggers: Seq<TheoryAtomId>, qhead: int) -> bool {
    forall|a: int| 0 <= a < marks.len() && #[trigger] marks[a] ==> waiting(triggers, qhead, a)
}

/// What decides which atoms wait: the classes, the queue of atoms, and its read cursor.
pub type Watch = (ClassState, Seq<TheoryAtomId>, int);

/// The endpoints of the atom are in one class.
pub open spec fn joined(atoms: Seq<(TermId, TermId)>, state: ClassState, a: int) -> bool {
    state.same(atoms[a].0.0 as int, atoms[a].1.0 as int)
}

/// Atoms go on waiting, and every atom whose endpoints have come into one class waits.
#[verifier::opaque]
pub open spec fn noticed(atoms: Seq<(TermId, TermId)>, before: Watch, after: Watch) -> bool {
    &&& forall|a: int|
        waiting(before.1, before.2, a) ==> #[trigger] waiting(after.1, after.2, a)
    &&& forall|a: int|
        0 <= a < atoms.len() && !joined(atoms, before.0, a) && joined(atoms, after.0, a)
            ==> #[trigger] waiting(after.1, after.2, a)
}

/// Where nothing changes there is nothing to notice.
pub proof fn lemma_noticed_refl(atoms: Seq<(TermId, TermId)>, watch: Watch)
    ensures
        noticed(atoms, watch, watch),
{
    reveal(noticed);
}

/// Two steps notice what each of them does.
pub proof fn lemma_noticed_trans(
    atoms: Seq<(TermId, TermId)>,
    before: Watch,
    mid: Watch,
    after: Watch,
)
    requires
        noticed(atoms, before, mid),
        noticed(atoms, mid, after),
    ensures
        noticed(atoms, before, after),
{
    reveal(noticed);
    assert forall|a: int| waiting(before.1, before.2, a) implies #[trigger] waiting(
        after.1,
        after.2,
        a,
    ) by {
        assert(waiting(mid.1, mid.2, a));
    }
    assert forall|a: int|
        0 <= a < atoms.len() && !joined(atoms, before.0, a) && joined(
            atoms,
            after.0,
            a,
        ) implies #[trigger] waiting(after.1, after.2, a) by {
        if joined(atoms, mid.0, a) {
            assert(waiting(mid.1, mid.2, a));
        }
    }
}

impl SearchState {
    /// The congruence-closure state.
    pub open spec fn kernel(&self) -> Core {
        Core {
            state: self.classes.state(),
            table: table_entries(self.signatures),
            edges: self.graph.list(),
            diseqs: self.active_disequalities@,
            lits: self.lits@,
            repairs: self.pending_repairs@,
            merges: self.pending_merges@,
        }
    }

    /// What decides which atoms wait.
    pub open spec fn watch(&self) -> Watch {
        (self.classes.state(), self.pending_atom_triggers@, self.pending_atom_qhead as int)
    }

    /// The logged table insertions.
    pub open spec fn inserted(&self) -> Seq<Seq<u32>> {
        self.signature_log@.map_values(|k: Vec<u32>| k@)
    }

    /// The arrays fit the terms and atoms, and agree with each other.
    pub open spec fn shaped(&self) -> bool {
        let ctx = self.ctx@;
        &&& self.classes.log_in_range()
        &&& self.classes.count() == ctx.terms.len()
        &&& self.classes.state().size.len() == ctx.terms.len()
        &&& self.classes.state().next.len() == ctx.terms.len()
        &&& self.graph.wf()
        &&& self.graph.count() == ctx.terms.len()
        &&& self.atom_is_enqueued.len() == ctx.atoms.len()
        &&& forall|i: int|
            0 <= i < self.pending_atom_triggers.len() ==> (
            #[trigger] self.pending_atom_triggers[i]).0 < ctx.atoms.len()
        &&& self.pending_atom_qhead <= self.pending_atom_triggers.len()
        &&& queue_ok(
            self.atom_is_enqueued@,
            self.pending_atom_triggers@,
            self.pending_atom_qhead as int,
        )
        &&& self.valued()
        &&& self.incidences()
    }

    /// An atom has a value exactly when a literal of it has been processed.
    pub open spec fn valued(&self) -> bool {
        let ctx = self.ctx@;
        &&& self.atom_values.len() == ctx.atoms.len()
        &&& self.atom_trail.len() == self.lits@.len()
        &&& forall|i: int| 0 <= i < self.lits@.len() ==> ctx.bound((#[trigger] self.lits@[i]).var)
        &&& forall|i: int|
            0 <= i < self.lits@.len() ==> (#[trigger] self.atom_trail[i]).0 == ctx.atom(
                self.lits@[i],
            )
        &&& forall|i: int, j: int|
            0 <= i < self.lits@.len() && 0 <= j < self.lits@.len() && (#[trigger] self.lits@[i]).var
                == (#[trigger] self.lits@[j]).var ==> i == j
        &&& forall|i: int|
            0 <= i < self.lits@.len() ==> self.atom_values[ctx.atom(#[trigger] self.lits@[i])]
                == Some(!self.lits@[i].negated)
        &&& forall|a: int|
            0 <= a < self.atom_values.len() && (#[trigger] self.atom_values[a]) is Some ==> exists|
                i: int,
            |
                0 <= i < self.lits@.len() && ctx.atom(#[trigger] self.lits@[i]) == a
    }

    /// Every term lists the active disequalities that it is a side of.
    pub open spec fn incidences(&self) -> bool {
        &&& self.term_disequalities.len() == self.ctx@.terms.len()
        &&& forall|t: int|
            0 <= t < self.term_disequalities.len() ==> (#[trigger] self.term_disequalities[t])@
                == incident(self.active_disequalities@, t)
        &&& self.disequality_incident_log@ == incident_log(self.active_disequalities@)
    }

    /// Level `i` can be rolled back: its logs reach back to the classes and the table at its start.
    /// If no work waited there, rolling back gives a consistent state without work left.
    pub open spec fn level_ok(&self, i: int) -> bool {
        let m = self.level_markers[i];
        let s = self.snapshots@[i];
        &&& m.undo_len <= self.classes.log().len()
        &&& self.classes.state().unwind(self.classes.log(), m.undo_len as int) == s.state
        &&& m.congruence_insert_len <= self.inserted().len()
        &&& unwind_table(
            table_entries(self.signatures),
            self.inserted(),
            m.congruence_insert_len as int,
        ) == s.table
        &&& m.merge_edges_len <= self.graph.list().len()
        &&& m.active_disequalities_len <= self.active_disequalities@.len()
        &&& m.disequality_incident_log_len == incident_log(
            self.active_disequalities@.take(m.active_disequalities_len as int),
        ).len()
        &&& m.atom_trail_len <= self.lits@.len()
        &&& m.pending_atom_triggers_len <= self.pending_atom_triggers.len()
        &&& m.settled@ ==> {
            &&& m.pending_merges_len == 0
            &&& m.pending_repairs_len == 0
            &&& m.pending_clauses_len == 0
            &&& core_at(self, m, s).ok(self.ctx@)
            &&& core_at(self, m, s).apart()
        }
    }

    /// The congruence-closure state that rolling back to the start of level `i` gives.
    pub open spec fn restored(&self, i: int) -> Core {
        core_at(self, self.level_markers[i], self.snapshots@[i])
    }

    /// Every open level can be rolled back.
    pub open spec fn levels_ok(&self) -> bool {
        &&& self.snapshots@.len() == self.level_markers.len()
        &&& forall|i: int| 0 <= i < self.level_markers.len() ==> #[trigger] self.level_ok(i)
        &&& forall|i: int, j: int|
            0 <= i <= j < self.level_markers.len() ==> marker_le(
                #[trigger] self.level_markers[i],
                #[trigger] self.level_markers[j],
            )
    }

    /// No work waits, no clause waits to be handed out, and no disequality is violated.
    pub open spec fn settled(&self) -> bool {
        &&& self.kernel().idle()
        &&& self.kernel().apart()
        &&& self.pending_clauses@.len() == 0
        &&& self.pending_atom_qhead == self.pending_atom_triggers.len()
    }

    /// Every open level was opened while no work waited.
    pub open spec fn levels_settled(&self) -> bool {
        forall|i: int|
            0 <= i < self.level_markers@.len() ==> (#[trigger] self.level_markers@[i]).settled@
    }

    /// The parts fit each other, and every open level can be rolled back.
    pub open spec fn rollbackable(&self) -> bool {
        &&& self.ctx@.ok()
        &&& self.shaped()
        &&& diseqs_in_range(self.active_disequalities@, self.ctx@.terms.len())
        &&& self.levels_ok()
    }

    /// A consistent state can be rolled back.
    pub proof fn lemma_rollbackable(&self)
        requires
            self.wf(),
        ensures
            self.rollbackable(),
    {
        assert forall|d: int| 0 <= d < self.active_disequalities@.len() implies (
        #[trigger] self.active_disequalities@[d]).lhs.0 < self.ctx@.terms.len()
            && self.active_disequalities@[d].rhs.0 < self.ctx@.terms.len() by {
            assert(self.kernel().asserted(self.ctx@, d));
            let lit = self.active_disequalities@[d].reason_lit;
            assert(self.ctx@.var_atoms[lit.var.0 as int] is Some);
            assert(self.ctx@.atoms[self.ctx@.atom(lit)].0.0 < self.ctx@.terms.len());
        }
    }

    /// A conflict waits to be handed out.
    pub open spec fn conflicted(&self) -> bool {
        has_conflict(self.pending_clauses@)
    }

    /// The state is consistent.
    pub open spec fn wf(&self) -> bool {
        &&& self.ctx@.ok()
        &&& self.shaped()
        &&& self.kernel().ok(self.ctx@)
        &&& self.levels_ok()
    }

    /// The registry holds the terms and atoms of this search.
    pub open spec fn matches(&self, registry: &Registry) -> bool {
        &&& registry.wf()
        &&& registry@.terms == self.ctx@.terms
        &&& registry@.atoms == self.ctx@.atoms
    }

    /// `new` differs by appended entries that the logs take back.
    pub open spec fn grows_to(&self, new: &SearchState) -> bool {
        &&& new.ctx == self.ctx
        &&& new.level_markers == self.level_markers
        &&& new.snapshots == self.snapshots
        &&& self.classes.log().len() <= new.classes.log().len()
        &&& forall|len: int|
            0 <= len <= self.classes.log().len() ==> #[trigger] new.classes.state().unwind(
                new.classes.log(),
                len,
            ) == self.classes.state().unwind(self.classes.log(), len)
        &&& self.inserted().len() <= new.inserted().len()
        &&& forall|len: int|
            0 <= len <= self.inserted().len() ==> #[trigger] unwind_table(
                table_entries(new.signatures),
                new.inserted(),
                len,
            ) == unwind_table(table_entries(self.signatures), self.inserted(), len)
        &&& self.graph.list().len() <= new.graph.list().len()
        &&& new.graph.list().take(self.graph.list().len() as int) == self.graph.list()
        &&& self.active_disequalities@.len() <= new.active_disequalities@.len()
        &&& new.active_disequalities@.take(self.active_disequalities@.len() as int)
            == self.active_disequalities@
        &&& self.lits@.len() <= new.lits@.len()
        &&& new.lits@.take(self.lits@.len() as int) == self.lits@
        &&& self.pending_atom_triggers.len() <= new.pending_atom_triggers.len()
    }

    /// Rolling back gives the same states when entries are appended.
    pub proof fn lemma_restored_grow(&self, new: &SearchState)
        requires
            self.levels_ok(),
            self.grows_to(new),
        ensures
            forall|i: int|
                0 <= i < self.level_markers.len() ==> #[trigger] new.restored(i) == self.restored(i),
    {
        assert forall|i: int| 0 <= i < self.level_markers.len() implies #[trigger] new.restored(i)
            == self.restored(i) by {
            assert(self.level_ok(i));
            let m = self.level_markers[i];
            assert(new.graph.list().take(self.graph.list().len() as int).take(
                m.merge_edges_len as int,
            ) =~= new.graph.list().take(m.merge_edges_len as int));
            assert(new.active_disequalities@.take(self.active_disequalities@.len() as int).take(
                m.active_disequalities_len as int,
            ) =~= new.active_disequalities@.take(m.active_disequalities_len as int));
            assert(new.lits@.take(self.lits@.len() as int).take(m.atom_trail_len as int)
                =~= new.lits@.take(m.atom_trail_len as int));
        }
    }

    /// Levels stay rollbackable when entries are appended.
    pub proof fn lemma_levels_grow(&self, new: &SearchState)
        requires
            self.levels_ok(),
            self.grows_to(new),
        ensures
            new.levels_ok(),
    {
        assert forall|i: int| 0 <= i < new.level_markers.len() implies #[trigger] new.level_ok(i) by {
            assert(self.level_ok(i));
            let m = self.level_markers[i];
            let s = self.snapshots@[i];
            assert(new.graph.list().take(m.merge_edges_len as int) =~= self.graph.list().take(
                m.merge_edges_len as int,
            )) by {
                assert(new.graph.list().take(self.graph.list().len() as int).take(
                    m.merge_edges_len as int,
                ) =~= new.graph.list().take(m.merge_edges_len as int));
            }
            assert(new.active_disequalities@.take(m.active_disequalities_len as int)
                =~= self.active_disequalities@.take(m.active_disequalities_len as int)) by {
                assert(new.active_disequalities@.take(
                    self.active_disequalities@.len() as int,
                ).take(m.active_disequalities_len as int) =~= new.active_disequalities@.take(
                    m.active_disequalities_len as int,
                ));
            }
            assert(new.lits@.take(m.atom_trail_len as int) =~= self.lits@.take(
                m.atom_trail_len as int,
            )) by {
                assert(new.lits@.take(self.lits@.len() as int).take(m.atom_trail_len as int)
                    =~= new.lits@.take(m.atom_trail_len as int));
            }
            assert(core_at(new, m, s) == core_at(self, m, s));
        }
    }

    /// Growing in two steps is growing.
    pub proof fn lemma_grows_trans(&self, mid: &SearchState, new: &SearchState)
        requires
            self.grows_to(mid),
            mid.grows_to(new),
        ensures
            self.grows_to(new),
    {
        assert(new.graph.list().take(self.graph.list().len() as int) =~= self.graph.list()) by {
            assert(new.graph.list().take(mid.graph.list().len() as int).take(
                self.graph.list().len() as int,
            ) =~= new.graph.list().take(self.graph.list().len() as int));
        }
        assert(new.active_disequalities@.take(self.active_disequalities@.len() as int)
            =~= self.active_disequalities@) by {
            assert(new.active_disequalities@.take(mid.active_disequalities@.len() as int).take(
                self.active_disequalities@.len() as int,
            ) =~= new.active_disequalities@.take(self.active_disequalities@.len() as int));
        }
        assert(new.lits@.take(self.lits@.len() as int) =~= self.lits@) by {
            assert(new.lits@.take(mid.lits@.len() as int).take(self.lits@.len() as int)
                =~= new.lits@.take(self.lits@.len() as int));
        }
        assert forall|len: int| 0 <= len <= self.classes.log().len() implies #[trigger] new.classes.state().unwind(
            new.classes.log(),
            len,
        ) == self.classes.state().unwind(self.classes.log(), len) by {
            assert(mid.classes.state().unwind(mid.classes.log(), len)
                == self.classes.state().unwind(self.classes.log(), len));
        }
        assert forall|len: int| 0 <= len <= self.inserted().len() implies #[trigger] unwind_table(
            table_entries(new.signatures),
            new.inserted(),
            len,
        ) == unwind_table(table_entries(self.signatures), self.inserted(), len) by {
            assert(unwind_table(table_entries(mid.signatures), mid.inserted(), len)
                == unwind_table(table_entries(self.signatures), self.inserted(), len));
        }
    }

    /// Scratch space and clauses do not matter to consistency.
    pub proof fn lemma_scratch(&self, new: &SearchState)
        requires
            self.wf(),
            *new == (SearchState {
                graph: new.graph,
                explain_cache: new.explain_cache,
                signature_scratch: new.signature_scratch,
                pending_clauses: new.pending_clauses,
                pending_assignments: new.pending_assignments,
                ..*self
            }),
            new.graph.wf(),
            new.graph.list() == self.graph.list(),
            new.graph.count() == self.graph.count(),
        ensures
            new.wf(),
            self.grows_to(new),
            new.kernel() == self.kernel(),
    {
        self.lemma_grows_refl();
        self.lemma_levels_grow(new);
    }

    /// Nothing has changed yet.
    pub proof fn lemma_grows_refl(&self)
        ensures
            self.grows_to(self),
    {
        assert(self.graph.list().take(self.graph.list().len() as int) =~= self.graph.list());
        assert(self.active_disequalities@.take(self.active_disequalities@.len() as int)
            =~= self.active_disequalities@);
        assert(self.lits@.take(self.lits@.len() as int) =~= self.lits@);
    }

    /// Creates the state of a search over no terms.
    pub fn new() -> (search: Self)
        ensures
            search.wf(),
            search.ctx@ == (Context {
                terms: Seq::empty(),
                atoms: Seq::empty(),
                var_atoms: Seq::empty(),
            }),
    {
        let search = SearchState {
            classes: Classes::new(),
            graph: ProofGraph::new(),
            signatures: table_new(),
            signature_log: Vec::new(),
            signature_scratch: Vec::new(),
            pending_merges: VecDeque::new(),
            pending_assignments: VecDeque::new(),
            pending_repairs: VecDeque::new(),
            pending_atom_triggers: Vec::new(),
            pending_atom_qhead: 0,
            atom_is_enqueued: Vec::new(),
            atom_values: Vec::new(),
            atom_trail: Vec::new(),
            pending_clauses: Vec::new(),
            active_disequalities: Vec::new(),
            term_disequalities: Vec::new(),
            disequality_incident_log: Vec::new(),
            explain_cache: pairs_new(),
            level_markers: Vec::new(),
            lits: Ghost(Seq::empty()),
            snapshots: Ghost(Seq::empty()),
            ctx: Ghost(
                Context { terms: Seq::empty(), atoms: Seq::empty(), var_atoms: Seq::empty() },
            ),
        };
        proof {
            reveal(queue_ok);
            assert(search.disequality_incident_log@ =~= incident_log(
                search.active_disequalities@,
            ));
            assert(search.kernel().ok(search.ctx@));
        }
        search
    }

    /// Reinitializes the search-local state for one new top-level search.
    pub fn reset_for_registry(&mut self, registry: &Registry, Ghost(ctx): Ghost<Context>)
        requires
            registry.wf(),
            registry@.terms == ctx.terms,
            registry@.atoms == ctx.atoms,
            ctx.ok(),
        ensures
            final(self).wf(),
            final(self).ctx@ == ctx,
            final(self).lits@ == Seq::<Lit>::empty(),
            final(self).pending_assignments@ == Seq::<Lit>::empty(),
            final(self).level_markers@ == Seq::<LevelMarker>::empty(),
            final(self).pending_clauses@ == Seq::<TheoryClause>::empty(),
            final(self).pending_atom_triggers@ == Seq::<TheoryAtomId>::empty(),
            final(self).pending_atom_qhead == 0,
            final(self).kernel().idle(),
            final(self).kernel().apart(),
    {
        let nterms = registry.num_terms();
        let natoms = registry.num_atoms();
        self.classes.reset(nterms);
        table_clear(&mut self.signatures);
        self.signature_scratch.clear();
        self.signature_log.clear();
        self.pending_merges.clear();
        self.pending_assignments.clear();
        self.pending_repairs.clear();
        self.pending_atom_triggers.clear();
        self.pending_atom_qhead = 0;
        self.atom_is_enqueued.clear();
        self.atom_is_enqueued.resize(natoms, false);
        self.atom_values.clear();
        self.atom_values.resize(natoms, None);
        self.atom_trail.clear();
        self.pending_clauses.clear();
        self.active_disequalities.clear();
        self.term_disequalities.clear();
        let mut t: usize = 0;
        while t < nterms
            invariant
                0 <= t <= nterms,
                self.term_disequalities.len() == t,
                forall|i: int|
                    0 <= i < t ==> (#[trigger] self.term_disequalities[i])@ == Seq::<usize>::empty(),
                *self == (SearchState {
                    term_disequalities: self.term_disequalities,
                    ..*self
                }),
                self.classes.wf(),
                self.classes.count() == nterms,
                self.classes.log() == Seq::<crate::euf::classes::Undo>::empty(),
                self.classes.state().class_count() == nterms,
                forall|x: int| 0 <= x < nterms ==> #[trigger] self.classes.state().root(x) == x,
                table_entries(self.signatures) == (Map::<Seq<u32>, u32>::empty()),
                self.signature_log@ == Seq::<Vec<u32>>::empty(),
                self.pending_merges@ == Seq::<MergeInput>::empty(),
                self.pending_assignments@ == Seq::<Lit>::empty(),
                self.pending_repairs@ == Seq::<TermId>::empty(),
                self.pending_atom_triggers@ == Seq::<TheoryAtomId>::empty(),
                self.pending_atom_qhead == 0,
                self.atom_is_enqueued.len() == natoms,
                forall|a: int| 0 <= a < natoms ==> !(#[trigger] self.atom_is_enqueued@[a]),
                self.atom_values.len() == natoms,
                forall|a: int| 0 <= a < natoms ==> (#[trigger] self.atom_values[a]) is None,
                self.atom_trail@ == Seq::<TheoryAtomId>::empty(),
                self.pending_clauses@ == Seq::<TheoryClause>::empty(),
                self.active_disequalities@ == Seq::<DisequalityEntry>::empty(),
            decreases nterms - t,
        {
            self.term_disequalities.push(Vec::new());
            t += 1;
        }
        self.disequality_incident_log.clear();
        self.graph.reset(nterms);
        pairs_clear(&mut self.explain_cache);
        self.level_markers.clear();
        self.lits = Ghost(Seq::empty());
        self.snapshots = Ghost(Seq::empty());
        self.ctx = Ghost(ctx);
        proof {
            assert(self.disequality_incident_log@ =~= incident_log(self.active_disequalities@));
            reveal(queue_ok);
            assert(self.shaped());
        }
        self.initialize_congruence_table(registry);
        proof {
            assert forall|t: int|
                0 <= t < ctx.terms.len() && ctx.terms[t].args.len() > 0 implies self.pending_repairs@.contains(
            TermId(t as u32)) || #[trigger] self.kernel().settled(ctx, t) by {
                assert(self.inserted_term(t));
            }
            assert(self.kernel().ok(ctx));
        }
    }

    /// The current signature of `t` is in the table under `t` itself.
    spec fn inserted_term(&self, t: int) -> bool {
        &&& table_entries(self.signatures).contains_key(self.kernel().signature(self.ctx@, t))
        &&& table_entries(self.signatures)[self.kernel().signature(self.ctx@, t)] == t
    }

    /// Initializes the congruence table for every registered application term.
    fn initialize_congruence_table(&mut self, registry: &Registry)
        requires
            old(self).matches(registry),
            old(self).ctx@.ok(),
            old(self).shaped(),
            old(self).classes.wf(),
            forall|t: int|
                0 <= t < old(self).ctx@.terms.len() ==> #[trigger] old(self).classes.state().root(t)
                    == t,
            table_entries(old(self).signatures) == (Map::<Seq<u32>, u32>::empty()),
        ensures
            *final(self) == (SearchState {
                signatures: final(self).signatures,
                signature_log: final(self).signature_log,
                signature_scratch: final(self).signature_scratch,
                ..*old(self)
            }),
            forall|t: int|
                0 <= t < old(self).ctx@.terms.len() && old(self).ctx@.terms[t].args.len() > 0
                    ==> #[trigger] final(self).inserted_term(t),
            forall|key: Seq<u32>| #[trigger]
                table_entries(final(self).signatures).contains_key(key)
                    ==> final(self).kernel().entry_sound(final(self).ctx@, key),
    {
        let ghost ctx = self.ctx@;
        let mut index: usize = 0;
        let n = registry.num_terms();
        while index < n
            invariant
                0 <= index <= n,
                n == ctx.terms.len(),
                ctx == self.ctx@,
                ctx.ok(),
                self.matches(registry),
                self.shaped(),
                self.classes.wf(),
                forall|t: int|
                    0 <= t < ctx.terms.len() ==> #[trigger] self.classes.state().root(t) == t,
                *self == (SearchState {
                    signatures: self.signatures,
                    signature_log: self.signature_log,
                    signature_scratch: self.signature_scratch,
                    ..*old(self)
                }),
                forall|t: int|
                    0 <= t < index && ctx.terms[t].args.len() > 0 ==> #[trigger] self.inserted_term(
                        t,
                    ),
                forall|key: Seq<u32>| #[trigger]
                    table_entries(self.signatures).contains_key(key) ==> {
                        &&& self.kernel().entry_sound(ctx, key)
                        &&& table_entries(self.signatures)[key] < index
                        &&& key == self.kernel().signature(
                            ctx,
                            table_entries(self.signatures)[key] as int,
                        )
                    },
            decreases n - index,
        {
            let parent = TermId(index as u32);
            let ghost before = *self;
            if registry.term_ref(parent).args.len() > 0 {
                self.fill_congruence_sig_scratch(registry, parent);
                let ghost key = self.kernel().signature(ctx, index as int);
                proof {
                    if table_entries(self.signatures).contains_key(key) {
                        let o = table_entries(self.signatures)[key] as int;
                        assert(before.kernel().signature(ctx, o) == key);
                        lemma_identity_signature(self, ctx, o, index as int);
                    }
                }
                self.insert_current_signature(parent);
                proof {
                    assert(key == before.kernel().signature(ctx, index as int));
                    let core = before.kernel();
                    assert forall|t: int|
                        0 <= t < index + 1 && ctx.terms[t].args.len()
                            > 0 implies #[trigger] self.inserted_term(t) by {
                        if t < index {
                            assert(before.inserted_term(t));
                            assert(self.kernel().signature(ctx, t) == before.kernel().signature(
                                ctx,
                                t,
                            ));
                        } else {
                            assert(self.kernel().signature(ctx, t) == key);
                        }
                    }
                    assert forall|k: Seq<u32>| #[trigger]
                        table_entries(self.signatures).contains_key(k) implies {
                        &&& self.kernel().entry_sound(ctx, k)
                        &&& table_entries(self.signatures)[k] < index + 1
                        &&& k == self.kernel().signature(
                            ctx,
                            table_entries(self.signatures)[k] as int,
                        )
                    } by {
                        if k == key {
                            assert(self.kernel().signature(ctx, index as int) == key);
                            assert forall|i: int|
                                0 <= i < ctx.terms[index as int].args.len() implies #[trigger] self.kernel().arg_known(
                            ctx, key, i) by {
                                let arg = ctx.terms[index as int].args[i];
                                assert(0 <= arg < index);
                                assert(key[1 + i] == self.classes.state().root(arg));
                            }
                        } else {
                            assert(table_entries(before.signatures).contains_key(k));
                            let o = table_entries(before.signatures)[k] as int;
                            assert(before.kernel().entry_sound(ctx, k));
                            assert(self.kernel().signature(ctx, o) == before.kernel().signature(
                                ctx,
                                o,
                            ));
                            assert forall|i: int|
                                0 <= i < ctx.terms[o].args.len() implies #[trigger] self.kernel().arg_known(
                            ctx, k, i) by {
                                assert(before.kernel().arg_known(ctx, k, i));
                            }
                        }
                    }
                }
            }
            index += 1;
        }
    }

    /// Fills `signature_scratch` with the current signature of `parent`.
    pub fn fill_congruence_sig_scratch(&mut self, registry: &Registry, parent: TermId)
        requires
            old(self).matches(registry),
            old(self).ctx@.ok(),
            old(self).shaped(),
            old(self).classes.wf(),
            parent.0 < old(self).ctx@.terms.len(),
        ensures
            *final(self) == (SearchState {
                signature_scratch: final(self).signature_scratch,
                ..*old(self)
            }),
            final(self).signature_scratch@ == old(self).kernel().signature(
                old(self).ctx@,
                parent.0 as int,
            ),
    {
        let ghost ctx = self.ctx@;
        let term = registry.term_ref(parent);
        let ghost tv = ctx.terms[parent.0 as int];
        let mut scratch: Vec<u32> = Vec::new();
        scratch.push(term.fun.0);
        let mut i: usize = 0;
        proof {
            assert(tv.fun == term.fun.0);
            assert(tv.args.len() == term.args@.len());
        }
        let ghost state = self.classes.state();
        while i < term.args.len()
            invariant
                0 <= i <= term.args.len(),
                tv == application(term.fun, term.args@),
                state == self.classes.state(),
                state.trees(),
                parent.0 < self.classes.count(),
                forall|k: int| 0 <= k < term.args@.len() ==> (#[trigger] term.args@[k]).0 < parent.0,
                scratch.len() == 1 + i,
                scratch[0] == tv.fun,
                forall|k: int| 0 <= k < i ==> scratch[1 + k] == state.root(#[trigger] tv.args[k]),
            decreases term.args.len() - i,
        {
            let rep = self.classes.find(term.args[i]);
            proof {
                assert(tv.args[i as int] == term.args@[i as int].0);
            }
            scratch.push(rep.0);
            i += 1;
        }
        proof {
            let sig = old(self).kernel().signature(ctx, parent.0 as int);
            assert(sig.len() == 1 + tv.args.len());
            assert forall|k: int| 0 <= k < sig.len() implies scratch@[k] == sig[k] by {
                if k > 0 {
                    let arg = tv.args[k - 1];
                    assert(scratch[1 + (k - 1)] == state.root(arg));
                    state.lemma_root(arg);
                }
            }
            assert(scratch@ =~= sig);
        }
        self.signature_scratch = scratch;
    }

    /// Finds one existing congruence-table owner for the current scratch signature.
    pub fn find_congruent_parent_for_current_sig(&self) -> (owner: Option<TermId>)
        ensures
            owner == if table_entries(self.signatures).contains_key(self.signature_scratch@) {
                Some(TermId(table_entries(self.signatures)[self.signature_scratch@]))
            } else {
                None
            },
    {
        match table_get(&self.signatures, &self.signature_scratch) {
            Some(owner) => Some(TermId(owner)),
            None => None,
        }
    }

    /// Finds one existing congruence-table owner for `parent`, if any.
    pub fn find_congruent_parent(&mut self, registry: &Registry, parent: TermId) -> (owner: Option<
        TermId,
    >)
        requires
            old(self).matches(registry),
            old(self).ctx@.ok(),
            old(self).shaped(),
            old(self).classes.wf(),
            parent.0 < old(self).ctx@.terms.len(),
        ensures
            *final(self) == (SearchState {
                signature_scratch: final(self).signature_scratch,
                ..*old(self)
            }),
            ({
                let key = old(self).kernel().signature(old(self).ctx@, parent.0 as int);
                &&& final(self).signature_scratch@ == key
                &&& owner == if table_entries(old(self).signatures).contains_key(key) {
                    Some(TermId(table_entries(old(self).signatures)[key]))
                } else {
                    None
                }
            }),
    {
        self.fill_congruence_sig_scratch(registry, parent);
        self.find_congruent_parent_for_current_sig()
    }

    /// Puts the scratch signature into the congruence table and its log, owned by `parent`.
    pub fn insert_current_signature(&mut self, parent: TermId)
        requires
            !table_entries(old(self).signatures).contains_key(old(self).signature_scratch@),
        ensures
            *final(self) == (SearchState {
                signatures: final(self).signatures,
                signature_log: final(self).signature_log,
                ..*old(self)
            }),
            table_entries(final(self).signatures) == table_entries(old(self).signatures).insert(
                old(self).signature_scratch@,
                parent.0,
            ),
            final(self).inserted() == old(self).inserted().push(old(self).signature_scratch@),
            forall|len: int|
                0 <= len <= old(self).inserted().len() ==> #[trigger] unwind_table(
                    table_entries(final(self).signatures),
                    final(self).inserted(),
                    len,
                ) == unwind_table(table_entries(old(self).signatures), old(self).inserted(), len),
    {
        let ghost key = self.signature_scratch@;
        let owned = copy_indices(&self.signature_scratch);
        self.signature_log.push(copy_indices(&owned));
        table_insert(&mut self.signatures, owned, parent.0);
        proof {
            assert(self.inserted() =~= old(self).inserted().push(key));
            assert forall|len: int| 0 <= len <= old(self).inserted().len() implies #[trigger] unwind_table(
                table_entries(self.signatures),
                self.inserted(),
                len,
            ) == unwind_table(table_entries(old(self).signatures), old(self).inserted(), len) by {
                lemma_unwind_table_push(
                    table_entries(old(self).signatures),
                    old(self).inserted(),
                    key,
                    parent.0,
                    len,
                );
            }
        }
    }
}

impl SearchState {
    /// Pushes one rollback marker aligned with a new level.
    pub fn push_level(&mut self)
        requires
            old(self).wf(),
        ensures
            final(self).wf(),
            *final(self) == (SearchState {
                level_markers: final(self).level_markers,
                snapshots: final(self).snapshots,
                ..*old(self)
            }),
            final(self).level_markers.len() == old(self).level_markers.len() + 1,
            final(self).level_markers@.drop_last() == old(self).level_markers@,
            final(self).level_markers@.last().atom_trail_len == old(self).lits@.len(),
            final(self).snapshots@.drop_last() == old(self).snapshots@,
            final(self).level_markers@.last().settled@ == old(self).settled(),
            final(self).restored(old(self).level_markers.len() as int) == (Core {
                repairs: Seq::empty(),
                merges: Seq::empty(),
                ..old(self).kernel()
            }),
            old(self).settled() ==> final(self).restored(old(self).level_markers.len() as int)
                == old(self).kernel(),
            forall|i: int|
                0 <= i < old(self).level_markers.len() ==> #[trigger] final(self).restored(i)
                    == old(self).restored(i),
    {
        let marker = LevelMarker {
            undo_len: self.classes.undo_len(),
            congruence_insert_len: self.signature_log.len(),
            merge_edges_len: self.graph.len(),
            active_disequalities_len: self.active_disequalities.len(),
            disequality_incident_log_len: self.disequality_incident_log.len(),
            pending_merges_len: self.pending_merges.len(),
            pending_repairs_len: self.pending_repairs.len(),
            pending_atom_triggers_len: self.pending_atom_triggers.len(),
            pending_clauses_len: self.pending_clauses.len(),
            atom_trail_len: self.atom_trail.len(),
            settled: Ghost(self.settled()),
        };
        let ghost snapshot = Snapshot {
            state: self.classes.state(),
            table: table_entries(self.signatures),
        };
        self.level_markers.push(marker);
        self.snapshots = Ghost(self.snapshots@.push(snapshot));
        proof {
            let n = old(self).level_markers.len() as int;
            assert(self.level_markers@.drop_last() =~= old(self).level_markers@);
            assert(self.snapshots@.drop_last() =~= old(self).snapshots@);
            assert(self.restored(n) =~= (Core {
                repairs: Seq::empty(),
                merges: Seq::empty(),
                ..old(self).kernel()
            })) by {
                assert(self.graph.list().take(self.graph.list().len() as int)
                    =~= self.graph.list());
                assert(self.active_disequalities@.take(self.active_disequalities@.len() as int)
                    =~= self.active_disequalities@);
                assert(self.lits@.take(self.lits@.len() as int) =~= self.lits@);
            }
            if old(self).settled() {
                assert(self.pending_repairs@ =~= Seq::<TermId>::empty());
                assert(self.pending_merges@ =~= Seq::<MergeInput>::empty());
                assert(self.restored(n) =~= old(self).kernel());
            }
            assert forall|i: int| 0 <= i < self.level_markers.len() implies #[trigger] self.level_ok(
                i,
            ) by {
                if i < n {
                    assert(old(self).level_ok(i));
                    let m = old(self).level_markers[i];
                    let s = old(self).snapshots@[i];
                    assert(self.level_markers[i] == m);
                    assert(self.snapshots@[i] == s);
                    assert(core_at(self, m, s) == core_at(old(self), m, s));
                } else {
                    assert(self.graph.list().take(self.graph.list().len() as int)
                        =~= self.graph.list());
                    assert(self.active_disequalities@.take(
                        self.active_disequalities@.len() as int,
                    ) =~= self.active_disequalities@);
                    assert(self.lits@.take(self.lits@.len() as int) =~= self.lits@);
                    if old(self).settled() {
                        assert(core_at(self, marker, snapshot) =~= old(self).kernel());
                    }
                }
            }
            assert forall|i: int, j: int| 0 <= i <= j < self.level_markers.len() implies marker_le(
                #[trigger] self.level_markers[i],
                #[trigger] self.level_markers[j],
            ) by {
                if j < n {
                    assert(marker_le(old(self).level_markers[i], old(self).level_markers[j]));
                } else if i < n {
                    assert(old(self).level_ok(i));
                }
            }
        }
    }

    /// Pops search-local state back to `new_level`.
    #[verifier::rlimit(60)]
    #[verifier::spinoff_prover]
    pub fn pop_levels(&mut self, new_level: usize)
        requires
            old(self).rollbackable(),
        ensures
            final(self).rollbackable(),
            final(self).ctx == old(self).ctx,
            final(self).pending_assignments == old(self).pending_assignments,
            new_level >= old(self).level_markers.len() ==> *final(self) == *old(self),
            final(self).snapshots@ == old(self).snapshots@.take(
                final(self).level_markers@.len() as int,
            ),
            new_level < old(self).level_markers.len() ==> {
                &&& final(self).kernel() == (Core {
                    repairs: final(self).pending_repairs@,
                    merges: final(self).pending_merges@,
                    ..old(self).restored(new_level as int)
                })
                &&& forall|i: int|
                    0 <= i < new_level ==> #[trigger] final(self).restored(i) == old(
                        self,
                    ).restored(i)
                &&& final(self).level_markers@ == old(self).level_markers@.take(new_level as int)
                &&& final(self).lits@ == old(self).lits@.take(
                    old(self).level_markers[new_level as int].atom_trail_len as int,
                )
                &&& old(self).level_markers[new_level as int].settled@ ==> {
                    &&& final(self).wf()
                    &&& final(self).kernel() == old(self).restored(new_level as int)
                    &&& final(self).kernel().idle()
                    &&& final(self).kernel().apart()
                    &&& final(self).pending_clauses@.len() == 0
                }
                &&& old(self).pending_atom_qhead >= old(self).level_markers[new_level as int].pending_atom_triggers_len
                    ==> final(self).pending_atom_qhead == final(self).pending_atom_triggers.len()
            },
    {
        let ghost start = *self;
        proof {
            assert(self.snapshots@.take(self.snapshots@.len() as int) =~= self.snapshots@);
            assert(self.level_markers@.take(self.level_markers@.len() as int)
                =~= self.level_markers@);
            assert(self.lits@.take(self.lits@.len() as int) =~= self.lits@);
        }
        while self.level_markers.len() > new_level
            invariant
                self.rollbackable(),
                self.ctx == start.ctx,
                self.pending_assignments == start.pending_assignments,
                start.rollbackable(),
                self.level_markers.len() <= start.level_markers.len(),
                self.level_markers@ == start.level_markers@.take(self.level_markers.len() as int),
                self.level_markers.len() == start.level_markers.len() ==> *self == start,
                self.level_markers.len() < start.level_markers.len() ==> {
                    let m = start.level_markers[self.level_markers.len() as int];
                    &&& self.lits@ == start.lits@.take(m.atom_trail_len as int)
                    &&& self.kernel() == (Core {
                        repairs: self.pending_repairs@,
                        merges: self.pending_merges@,
                        ..start.restored(self.level_markers.len() as int)
                    })
                    &&& start.level_markers[self.level_markers.len() as int].settled@ ==> {
                        &&& self.wf()
                        &&& self.kernel() == start.restored(self.level_markers.len() as int)
                        &&& self.kernel().idle()
                        &&& self.kernel().apart()
                        &&& self.pending_clauses@.len() == 0
                    }
                    &&& self.pending_atom_triggers.len() == m.pending_atom_triggers_len
                    &&& self.pending_atom_qhead == if start.pending_atom_qhead
                        < m.pending_atom_triggers_len {
                        start.pending_atom_qhead
                    } else {
                        m.pending_atom_triggers_len
                    }
                },
                self.snapshots@ == start.snapshots@.take(self.level_markers.len() as int),
                forall|i: int|
                    0 <= i < self.level_markers.len() ==> #[trigger] self.restored(i)
                        == start.restored(i),
                new_level < start.level_markers.len() ==> new_level <= self.level_markers.len(),
                new_level >= start.level_markers.len() ==> *self == start,
            decreases self.level_markers.len(),
        {
            let ghost before = *self;
            self.pop_level();
            proof {
                let k = self.level_markers.len() as int;
                let m = start.level_markers[k];
                assert(before.level_markers@.last() == m);
                assert(self.level_markers@ =~= start.level_markers@.take(k));
                assert(self.snapshots@ =~= start.snapshots@.take(k));
                assert(before.restored(k) == start.restored(k));
                assert forall|i: int| 0 <= i < k implies #[trigger] self.restored(i)
                    == start.restored(i) by {
                    assert(before.restored(i) == start.restored(i));
                }
                if before.level_markers.len() < start.level_markers.len() {
                    let m1 = start.level_markers[k + 1];
                    assert(marker_le(m, m1));
                    assert(start.level_ok(k + 1));
                    assert(start.lits@.take(m1.atom_trail_len as int).take(m.atom_trail_len as int)
                        =~= start.lits@.take(m.atom_trail_len as int));
                } else {
                    assert(before == start);
                }
            }
        }
    }

    /// Takes back everything since the innermost level was opened, and closes it.
    fn pop_level(&mut self)
        requires
            old(self).rollbackable(),
            old(self).level_markers.len() > 0,
        ensures
            final(self).rollbackable(),
            final(self).ctx == old(self).ctx,
            final(self).pending_assignments == old(self).pending_assignments,
            final(self).level_markers@ == old(self).level_markers@.drop_last(),
            final(self).snapshots@ == old(self).snapshots@.drop_last(),
            final(self).kernel() == (Core {
                repairs: final(self).pending_repairs@,
                merges: final(self).pending_merges@,
                ..old(self).restored(old(self).level_markers.len() - 1)
            }),
            forall|i: int|
                0 <= i < final(self).level_markers.len() ==> #[trigger] final(self).restored(i)
                    == old(self).restored(i),
            final(self).lits@ == old(self).lits@.take(
                old(self).level_markers@.last().atom_trail_len as int,
            ),
            old(self).level_markers@.last().settled@ ==> {
                &&& final(self).wf()
                &&& final(self).kernel() == old(self).restored(old(self).level_markers.len() - 1)
                &&& final(self).kernel().idle()
                &&& final(self).kernel().apart()
                &&& final(self).pending_clauses@.len() == 0
            },
            final(self).pending_atom_triggers.len() == old(self).level_markers@.last().pending_atom_triggers_len,
            final(self).pending_atom_qhead == if old(self).pending_atom_qhead < final(self).pending_atom_triggers.len() {
                old(self).pending_atom_qhead as int
            } else {
                final(self).pending_atom_triggers.len() as int
            },
    {
        let ghost n = self.level_markers.len() - 1;
        let ghost snapshot = self.snapshots@.last();
        let marker = self.level_markers.pop().unwrap();
        self.snapshots = Ghost(self.snapshots@.drop_last());
        proof {
            assert(old(self).level_ok(n));
            assert(marker == old(self).level_markers[n]);
            assert(snapshot == old(self).snapshots@[n]);
        }
        self.pending_clauses.truncate(marker.pending_clauses_len);
        self.drop_triggers(marker.pending_atom_triggers_len);
        self.pending_repairs.truncate(marker.pending_repairs_len);
        self.pending_merges.truncate(marker.pending_merges_len);
        self.drop_values(marker.atom_trail_len);
        self.drop_disequalities(
            marker.active_disequalities_len,
            marker.disequality_incident_log_len,
        );
        self.graph.truncate_merge_edges(marker.merge_edges_len);
        self.drop_signatures(marker.congruence_insert_len);
        self.classes.rollback_to(marker.undo_len);
        proof {
            assert(self.kernel() =~= (Core {
                repairs: self.pending_repairs@,
                merges: self.pending_merges@,
                ..core_at(old(self), marker, snapshot)
            }));
            if marker.settled@ {
                assert(self.pending_repairs@ =~= Seq::<TermId>::empty());
                assert(self.pending_merges@ =~= Seq::<MergeInput>::empty());
                assert(self.kernel() =~= core_at(old(self), marker, snapshot));
            }
            assert(self.level_markers@ =~= old(self).level_markers@.drop_last());
            assert(diseqs_in_range(self.active_disequalities@, self.ctx@.terms.len())) by {
                assert forall|d: int| 0 <= d < self.active_disequalities@.len() implies (
                #[trigger] self.active_disequalities@[d]).lhs.0 < self.ctx@.terms.len()
                    && self.active_disequalities@[d].rhs.0 < self.ctx@.terms.len() by {
                    assert(self.active_disequalities@[d] == old(self).active_disequalities@[d]);
                }
            }
            assert forall|i: int| 0 <= i < self.level_markers.len() implies #[trigger] self.level_ok(
                i,
            ) by {
                let m = old(self).level_markers[i];
                let s = old(self).snapshots@[i];
                assert(self.level_markers[i] == m);
                assert(self.snapshots@[i] == s);
                assert(old(self).level_ok(i));
                assert(marker_le(old(self).level_markers[i], old(self).level_markers[n]));
                old(self).classes.state().lemma_unwind_steps(
                    old(self).classes.log(),
                    marker.undo_len as int,
                    m.undo_len as int,
                );
                lemma_unwind_table_steps(
                    table_entries(old(self).signatures),
                    old(self).inserted(),
                    marker.congruence_insert_len as int,
                    m.congruence_insert_len as int,
                );
                assert(old(self).graph.list().take(marker.merge_edges_len as int).take(
                    m.merge_edges_len as int,
                ) =~= old(self).graph.list().take(m.merge_edges_len as int));
                assert(old(self).active_disequalities@.take(
                    marker.active_disequalities_len as int,
                ).take(m.active_disequalities_len as int) =~= old(self).active_disequalities@.take(
                    m.active_disequalities_len as int,
                ));
                assert(old(self).lits@.take(marker.atom_trail_len as int).take(
                    m.atom_trail_len as int,
                ) =~= old(self).lits@.take(m.atom_trail_len as int));
                assert(core_at(self, m, s) == core_at(old(self), m, s));
            }
            assert forall|i: int| 0 <= i < self.level_markers.len() implies #[trigger] self.restored(
                i,
            ) == old(self).restored(i) by {
                let m = old(self).level_markers[i];
                assert(self.level_markers[i] == m);
                assert(self.snapshots@[i] == old(self).snapshots@[i]);
                assert(marker_le(old(self).level_markers[i], old(self).level_markers[n]));
                assert(old(self).level_ok(i));
                assert(old(self).graph.list().take(marker.merge_edges_len as int).take(
                    m.merge_edges_len as int,
                ) =~= old(self).graph.list().take(m.merge_edges_len as int));
                assert(old(self).active_disequalities@.take(
                    marker.active_disequalities_len as int,
                ).take(m.active_disequalities_len as int) =~= old(self).active_disequalities@.take(
                    m.active_disequalities_len as int,
                ));
                assert(old(self).lits@.take(marker.atom_trail_len as int).take(
                    m.atom_trail_len as int,
                ) =~= old(self).lits@.take(m.atom_trail_len as int));
            }
            assert forall|i: int, j: int| 0 <= i <= j < self.level_markers.len() implies marker_le(
                #[trigger] self.level_markers[i],
                #[trigger] self.level_markers[j],
            ) by {
                assert(marker_le(old(self).level_markers[i], old(self).level_markers[j]));
            }
        }
    }

    /// Drops all but the first `len` atom triggers.
    fn drop_triggers(&mut self, len: usize)
        requires
            old(self).shaped(),
            len <= old(self).pending_atom_triggers.len(),
        ensures
            *final(self) == (SearchState {
                pending_atom_triggers: final(self).pending_atom_triggers,
                pending_atom_qhead: final(self).pending_atom_qhead,
                atom_is_enqueued: final(self).atom_is_enqueued,
                ..*old(self)
            }),
            final(self).shaped(),
            final(self).pending_atom_triggers@ == old(self).pending_atom_triggers@.take(len as int),
            final(self).pending_atom_qhead == if old(self).pending_atom_qhead < len {
                old(self).pending_atom_qhead as int
            } else {
                len as int
            },
    {
        let mut i: usize = len;
        while i < self.pending_atom_triggers.len()
            invariant
                len <= i <= self.pending_atom_triggers.len(),
                old(self).shaped(),
                self.atom_is_enqueued.len() == old(self).atom_is_enqueued.len(),
                forall|a: int|
                    0 <= a < self.atom_is_enqueued.len() && #[trigger] self.atom_is_enqueued@[a]
                        ==> old(self).atom_is_enqueued@[a] && forall|k: int|
                        len <= k < i ==> (#[trigger] self.pending_atom_triggers@[k]).0 != a,
                *self == (SearchState { atom_is_enqueued: self.atom_is_enqueued, ..*old(self) }),
            decreases self.pending_atom_triggers.len() - i,
        {
            let atom = self.pending_atom_triggers[i];
            self.atom_is_enqueued.set(atom.index(), false);
            i += 1;
        }
        self.pending_atom_triggers.truncate(len);
        if self.pending_atom_qhead > len {
            self.pending_atom_qhead = len;
        }
        proof {
            assert(self.pending_atom_triggers@ =~= old(self).pending_atom_triggers@.take(
                len as int,
            ));
            reveal(queue_ok);
            let triggers = self.pending_atom_triggers@;
            let qhead = self.pending_atom_qhead as int;
            assert forall|a: int|
                0 <= a < self.atom_is_enqueued.len()
                    && #[trigger] self.atom_is_enqueued@[a] implies waiting(triggers, qhead, a) by {
                let all = old(self).pending_atom_triggers@;
                let k = choose|k: int|
                    old(self).pending_atom_qhead <= k < all.len() && (#[trigger] all[k]).0 == a;
                assert(k < len);
                assert(triggers[k].0 == a);
            }
        }
    }

    /// Forgets the values of all but the first `len` assigned atoms.
    fn drop_values(&mut self, len: usize)
        requires
            old(self).shaped(),
            old(self).ctx@.ok(),
            len <= old(self).lits@.len(),
        ensures
            *final(self) == (SearchState {
                atom_values: final(self).atom_values,
                atom_trail: final(self).atom_trail,
                lits: final(self).lits,
                ..*old(self)
            }),
            final(self).shaped(),
            final(self).lits@ == old(self).lits@.take(len as int),
    {
        proof {
            assert(self.lits@.take(self.lits@.len() as int) =~= self.lits@);
        }
        while self.atom_trail.len() > len
            invariant
                self.shaped(),
                self.ctx@.ok(),
                len <= self.lits@.len() <= old(self).lits@.len(),
                self.lits@ == old(self).lits@.take(self.lits@.len() as int),
                *self == (SearchState {
                    atom_values: self.atom_values,
                    atom_trail: self.atom_trail,
                    lits: self.lits,
                    ..*old(self)
                }),
            decreases self.atom_trail.len(),
        {
            let ghost before = *self;
            let ghost n = self.lits@.len() - 1;
            let ghost ctx = self.ctx@;
            let ghost last = self.lits@[n];
            proof {
                assert(ctx.bound(last.var));
                assert(ctx.atom(last) < ctx.atoms.len());
                assert(self.atom_trail[n].0 == ctx.atom(last));
            }
            let atom = self.atom_trail.pop().unwrap();
            self.atom_values.set(atom.index(), None);
            self.lits = Ghost(self.lits@.drop_last());
            proof {
                let a = atom.0 as int;
                assert(self.lits@ =~= old(self).lits@.take(n));
                assert forall|i: int| 0 <= i < self.lits@.len() implies self.atom_values[ctx.atom(
                    #[trigger] self.lits@[i],
                )] == Some(!self.lits@[i].negated) by {
                    assert(self.lits@[i] == before.lits@[i]);
                    assert(before.lits@[i].var != last.var);
                    assert(ctx.bound(before.lits@[i].var));
                    if ctx.atom(before.lits@[i]) == a {
                        assert(ctx.var_atoms[before.lits@[i].var.0 as int]
                            == ctx.var_atoms[last.var.0 as int]);
                    }
                }
                assert forall|x: int| 0 <= x < self.atom_values.len() && (
                #[trigger] self.atom_values[x]) is Some implies exists|i: int|
                    0 <= i < self.lits@.len() && ctx.atom(#[trigger] self.lits@[i]) == x by {
                    assert(x != a);
                    assert(before.atom_values[x] is Some);
                    let i = choose|i: int|
                        0 <= i < before.lits@.len() && ctx.atom(#[trigger] before.lits@[i]) == x;
                    assert(i < n);
                    assert(self.lits@[i] == before.lits@[i]);
                }
                assert forall|i: int| 0 <= i < self.lits@.len() implies (
                #[trigger] self.atom_trail[i]).0 == ctx.atom(self.lits@[i]) by {
                    assert(before.atom_trail[i].0 == ctx.atom(before.lits@[i]));
                }
            }
        }
    }

    /// Deactivates all but the first `len` disequalities.
    fn drop_disequalities(&mut self, len: usize, log_len: usize)
        requires
            old(self).shaped(),
            len <= old(self).active_disequalities@.len(),
            log_len == incident_log(old(self).active_disequalities@.take(len as int)).len(),
            forall|d: int|
                0 <= d < old(self).active_disequalities@.len() ==> (#[trigger] old(self).active_disequalities@[d]).lhs.0 < old(self).ctx@.terms.len() && old(self).active_disequalities@[d].rhs.0 < old(self).ctx@.terms.len(),
        ensures
            *final(self) == (SearchState {
                active_disequalities: final(self).active_disequalities,
                term_disequalities: final(self).term_disequalities,
                disequality_incident_log: final(self).disequality_incident_log,
                ..*old(self)
            }),
            final(self).shaped(),
            final(self).active_disequalities@ == old(self).active_disequalities@.take(len as int),
    {
        let ghost mut diseqs = self.active_disequalities@;
        self.active_disequalities.truncate(len);
        proof {
            assert(self.active_disequalities@ =~= old(self).active_disequalities@.take(len as int));
            assert(diseqs.take(diseqs.len() as int) =~= diseqs);
            lemma_incident_log_monotone(diseqs, len as int);
        }
        while self.disequality_incident_log.len() > log_len
            invariant
                len <= diseqs.len() <= old(self).active_disequalities@.len(),
                diseqs == old(self).active_disequalities@.take(diseqs.len() as int),
                self.active_disequalities@ == old(self).active_disequalities@.take(len as int),
                log_len == incident_log(old(self).active_disequalities@.take(len as int)).len(),
                *self == (SearchState {
                    active_disequalities: self.active_disequalities,
                    term_disequalities: self.term_disequalities,
                    disequality_incident_log: self.disequality_incident_log,
                    ..*old(self)
                }),
                self.term_disequalities.len() == self.ctx@.terms.len(),
                forall|t: int|
                    0 <= t < self.term_disequalities.len() ==> (
                    #[trigger] self.term_disequalities[t])@ == incident(diseqs, t),
                self.disequality_incident_log@ == incident_log(diseqs),
                log_len <= self.disequality_incident_log.len(),
                forall|d: int|
                    0 <= d < old(self).active_disequalities@.len() ==> (#[trigger] old(self).active_disequalities@[d]).lhs.0 < self.ctx@.terms.len() && old(self).active_disequalities@[d].rhs.0 < self.ctx@.terms.len(),
            decreases diseqs.len(),
        {
            proof {
                if diseqs.len() == len {
                    assert(false);
                }
                let d = diseqs.len() - 1;
                assert(diseqs[d] == old(self).active_disequalities@[d]);
                assert(old(self).active_disequalities@[d].lhs.0 < self.ctx@.terms.len());
                assert(diseqs.last() == diseqs[d]);
                assert(old(self).active_disequalities.len() <= usize::MAX);
            }
            let ghost last = diseqs.last();
            let ghost rest = diseqs.drop_last();
            let ghost before = self.term_disequalities@;
            proof {
                lemma_incident_log_bound(rest);
                lemma_incident_log_monotone(rest, len as int);
                assert(rest =~= old(self).active_disequalities@.take(rest.len() as int));
                assert(rest.take(len as int) =~= old(self).active_disequalities@.take(len as int));
                assert(before[last.lhs.0 as int]@ == incident(diseqs, last.lhs.0 as int));
                assert(before[last.rhs.0 as int]@ == incident(diseqs, last.rhs.0 as int));
                if last.lhs != last.rhs {
                    assert(incident_log(diseqs) == incident_log(rest).push(
                        (last.lhs, rest.len() as usize),
                    ).push((last.rhs, rest.len() as usize)));
                } else {
                    assert(incident_log(diseqs) == incident_log(rest).push(
                        (last.lhs, rest.len() as usize),
                    ));
                }
            }
            let (term, diseq_index) = self.disequality_incident_log.pop().unwrap();
            proof {
                assert(before[term.0 as int]@ == incident(diseqs, term.0 as int));
            }
            self.pop_incidence(term);
            if self.disequality_incident_log.len() > log_len {
                let (other, other_index) = self.disequality_incident_log[
                    self.disequality_incident_log.len() - 1];
                if other_index == diseq_index {
                    self.disequality_incident_log.pop();
                    self.pop_incidence(other);
                }
            }
            proof {
                assert(self.disequality_incident_log@ =~= incident_log(rest));
                assert forall|t: int| 0 <= t < self.term_disequalities.len() implies (
                #[trigger] self.term_disequalities[t])@ == incident(rest, t) by {
                    assert(before[t]@ == incident(diseqs, t));
                    assert(self.term_disequalities[t]@ =~= incident(rest, t));
                }
                diseqs = rest;
            }
        }
        proof {
            if diseqs.len() > len {
                lemma_incident_log_monotone(diseqs, len as int);
                assert(diseqs.take(len as int) =~= old(self).active_disequalities@.take(
                    len as int,
                ));
            }
            assert(diseqs == self.active_disequalities@);
        }
    }

    /// Removes the latest entry of one incidence list.
    fn pop_incidence(&mut self, term: TermId)
        requires
            term.0 < old(self).term_disequalities.len(),
            old(self).term_disequalities[term.0 as int].len() > 0,
        ensures
            *final(self) == (SearchState {
                term_disequalities: final(self).term_disequalities,
                ..*old(self)
            }),
            final(self).term_disequalities.len() == old(self).term_disequalities.len(),
            forall|t: int|
                0 <= t < old(self).term_disequalities.len() ==> (
                #[trigger] final(self).term_disequalities[t])@ == if t == term.0 {
                    old(self).term_disequalities[t]@.drop_last()
                } else {
                    old(self).term_disequalities[t]@
                },
    {
        let mut list = self.term_disequalities[term.index()].clone();
        list.pop();
        self.term_disequalities.set(term.index(), list);
        proof {
            assert(list@ =~= old(self).term_disequalities[term.0 as int]@.drop_last());
        }
    }

    /// Removes all but the first `len` logged signatures from the congruence table.
    fn drop_signatures(&mut self, len: usize)
        requires
            len <= old(self).inserted().len(),
        ensures
            *final(self) == (SearchState {
                signatures: final(self).signatures,
                signature_log: final(self).signature_log,
                ..*old(self)
            }),
            table_entries(final(self).signatures) == unwind_table(
                table_entries(old(self).signatures),
                old(self).inserted(),
                len as int,
            ),
            final(self).inserted() == old(self).inserted().take(len as int),
    {
        proof {
            assert(self.inserted().take(self.inserted().len() as int) =~= self.inserted());
        }
        while self.signature_log.len() > len
            invariant
                len <= self.inserted().len() <= old(self).inserted().len(),
                self.inserted() == old(self).inserted().take(self.inserted().len() as int),
                *self == (SearchState {
                    signatures: self.signatures,
                    signature_log: self.signature_log,
                    ..*old(self)
                }),
                unwind_table(table_entries(self.signatures), self.inserted(), len as int)
                    == unwind_table(
                    table_entries(old(self).signatures),
                    old(self).inserted(),
                    len as int,
                ),
            decreases self.signature_log.len(),
        {
            let ghost log = self.inserted();
            let key = self.signature_log.pop().unwrap();
            table_remove(&mut self.signatures, &key);
            proof {
                assert(log.last() == key@);
                assert(log.drop_last() =~= self.inserted());
                assert(self.inserted() =~= old(self).inserted().take(
                    self.inserted().len() as int,
                ));
            }
        }
    }
}

proof fn lemma_incident_log_bound(diseqs: Seq<DisequalityEntry>)
    requires
        diseqs.len() <= usize::MAX,
    ensures
        forall|i: int|
            0 <= i < incident_log(diseqs).len() ==> (#[trigger] incident_log(diseqs)[i]).1
                < diseqs.len(),
    decreases diseqs.len(),
{
    if diseqs.len() > 0 {
        let rest = diseqs.drop_last();
        lemma_incident_log_bound(rest);
        let log = incident_log(diseqs);
        assert forall|i: int| 0 <= i < log.len() implies (#[trigger] log[i]).1 < diseqs.len() by {
            if i < incident_log(rest).len() {
                assert(log[i] == incident_log(rest)[i]);
            }
        }
    }
}

/// `lhs` and `rhs` are equal wherever the processed literals hold, for the given reason.
pub open spec fn reason_valid(
    k: Core,
    ctx: Context,
    lhs: TermId,
    rhs: TermId,
    reason: MergeReason,
) -> bool {
    match reason {
        MergeReason::InputEq { reason_lit } => {
            &&& k.lits.contains(reason_lit)
            &&& ctx.bound(reason_lit.var)
            &&& !reason_lit.negated
            &&& ctx.lhs(reason_lit) == lhs.0
            &&& ctx.rhs(reason_lit) == rhs.0
        },
        MergeReason::Congruence { left_parent, right_parent } => {
            let l = left_parent.0 as int;
            let r = right_parent.0 as int;
            &&& left_parent == lhs
            &&& right_parent == rhs
            &&& ctx.terms[l].fun == ctx.terms[r].fun
            &&& ctx.terms[l].args.len() == ctx.terms[r].args.len()
            &&& forall|i: int|
                0 <= i < ctx.terms[l].args.len() ==> k.state.same(
                    #[trigger] ctx.terms[l].args[i],
                    ctx.terms[r].args[i],
                )
        },
    }
}

/// `after` is `before` with entries appended.
pub open spec fn appended(before: Seq<TermId>, after: Seq<TermId>) -> bool {
    &&& before.len() <= after.len()
    &&& forall|i: int| 0 <= i < before.len() ==> #[trigger] after[i] == before[i]
}

/// `t` is among the entries of `after` beyond those of `before`.
pub open spec fn is_appended(before: Seq<TermId>, after: Seq<TermId>, t: TermId) -> bool {
    exists|i: int| before.len() <= i < after.len() && #[trigger] after[i] == t
}

/// Both sides of every active disequality are terms of the search.
pub open spec fn diseqs_in_range(diseqs: Seq<DisequalityEntry>, n: nat) -> bool {
    forall|d: int| 0 <= d < diseqs.len() ==> (#[trigger] diseqs[d]).lhs.0 < n && diseqs[d].rhs.0 < n
}

impl SearchState {
    /// The sides of active disequalities and the endpoints of processed literals are terms.
    pub proof fn lemma_in_range(&self)
        requires
            self.wf(),
        ensures
            diseqs_in_range(self.active_disequalities@, self.ctx@.terms.len()),
            forall|i: int|
                0 <= i < self.pending_merges@.len() ==> (#[trigger] self.pending_merges@[i]).lhs.0
                    < self.ctx@.terms.len() && self.pending_merges@[i].rhs.0
                    < self.ctx@.terms.len(),
    {
        let ctx = self.ctx@;
        assert forall|d: int| 0 <= d < self.active_disequalities@.len() implies (
        #[trigger] self.active_disequalities@[d]).lhs.0 < ctx.terms.len()
            && self.active_disequalities@[d].rhs.0 < ctx.terms.len() by {
            assert(self.kernel().asserted(ctx, d));
            let lit = self.active_disequalities@[d].reason_lit;
            assert(ctx.var_atoms[lit.var.0 as int] is Some);
            assert(ctx.atoms[ctx.atom(lit)].0.0 < ctx.terms.len());
        }
        assert forall|i: int| 0 <= i < self.pending_merges@.len() implies (
        #[trigger] self.pending_merges@[i]).lhs.0 < ctx.terms.len()
            && self.pending_merges@[i].rhs.0 < ctx.terms.len() by {
            assert(self.kernel().input_ok(ctx, self.kernel().merges[i]));
            let lit = self.pending_merges@[i].reason_lit;
            assert(ctx.var_atoms[lit.var.0 as int] is Some);
            assert(ctx.atoms[ctx.atom(lit)].0.0 < ctx.terms.len());
        }
    }

    /// Finds the current class representative of `term`.
    pub fn find(&self, term: TermId) -> (root: EClassId)
        requires
            self.classes.state().trees(),
            term.0 < self.classes.count(),
        ensures
            root.0 == self.classes.state().root(term.0 as int),
            root.0 < self.classes.count(),
            self.classes.state().parent[root.0 as int] == root,
    {
        self.classes.find(term)
    }

    /// Finds one violated active disequality incident to `term`.
    fn incident_disequality_conflict(&self, term: TermId) -> (found: Option<DisequalityEntry>)
        requires
            self.classes.state().trees(),
            self.classes.count() == self.ctx@.terms.len(),
            self.incidences(),
            term.0 < self.ctx@.terms.len(),
            diseqs_in_range(self.active_disequalities@, self.ctx@.terms.len()),
        ensures
            found matches Some(entry) ==> self.active_disequalities@.contains(entry)
                && self.classes.state().same(entry.lhs.0 as int, entry.rhs.0 as int),
            found is None ==> forall|d: int|
                0 <= d < self.active_disequalities@.len() && ((
                #[trigger] self.active_disequalities@[d]).lhs == term
                    || self.active_disequalities@[d].rhs == term) ==> !self.classes.state().same(
                    self.active_disequalities@[d].lhs.0 as int,
                    self.active_disequalities@[d].rhs.0 as int,
                ),
    {
        let ghost diseqs = self.active_disequalities@;
        let ghost list = self.term_disequalities[term.0 as int]@;
        proof {
            assert(self.active_disequalities.len() <= usize::MAX);
            lemma_incident_member(diseqs, term.0 as int);
            assert(list == incident(diseqs, term.0 as int));
        }
        let mut i: usize = 0;
        while i < self.term_disequalities[term.index()].len()
            invariant
                0 <= i <= list.len(),
                term.0 < self.term_disequalities.len(),
                list == self.term_disequalities[term.0 as int]@,
                list == incident(diseqs, term.0 as int),
                diseqs == self.active_disequalities@,
                self.classes.state().trees(),
                self.classes.count() == self.ctx@.terms.len(),
                diseqs_in_range(diseqs, self.ctx@.terms.len()),
                forall|k: int| 0 <= k < list.len() ==> (#[trigger] incident(diseqs, term.0 as int)[k])
                    < diseqs.len(),
                forall|k: int|
                    0 <= k < i ==> !self.classes.state().same(
                        diseqs[(#[trigger] list[k]) as int].lhs.0 as int,
                        diseqs[list[k] as int].rhs.0 as int,
                    ),
            decreases list.len() - i,
        {
            proof {
                assert(incident(diseqs, term.0 as int)[i as int] < diseqs.len());
            }
            let diseq_index = self.term_disequalities[term.index()][i];
            let diseq = self.active_disequalities[diseq_index];
            if self.find(diseq.lhs) == self.find(diseq.rhs) {
                proof {
                    assert(diseqs[diseq_index as int] == diseq);
                }
                return Some(diseq);
            }
            i += 1;
        }
        proof {
            assert forall|d: int|
                0 <= d < diseqs.len() && ((#[trigger] diseqs[d]).lhs == term || diseqs[d].rhs
                    == term) implies !self.classes.state().same(
                diseqs[d].lhs.0 as int,
                diseqs[d].rhs.0 as int,
            ) by {
                assert(incident(diseqs, term.0 as int).contains(d as usize));
                let k = choose|k: int| 0 <= k < list.len() && list[k] == d as usize;
                assert(!self.classes.state().same(
                    diseqs[list[k] as int].lhs.0 as int,
                    diseqs[list[k] as int].rhs.0 as int,
                ));
            }
        }
        None
    }

    /// Enqueues one atom trigger at most once.
    fn enqueue_atom_trigger(&mut self, atom: TheoryAtomId)
        requires
            old(self).shaped(),
            atom.0 < old(self).ctx@.atoms.len(),
        ensures
            final(self).shaped(),
            *final(self) == (SearchState {
                pending_atom_triggers: final(self).pending_atom_triggers,
                atom_is_enqueued: final(self).atom_is_enqueued,
                ..*old(self)
            }),
            final(self).atom_is_enqueued[atom.0 as int],
            waiting(
                final(self).pending_atom_triggers@,
                final(self).pending_atom_qhead as int,
                atom.0 as int,
            ),
            forall|a: int|
                waiting(old(self).pending_atom_triggers@, old(self).pending_atom_qhead as int, a)
                    ==> #[trigger] waiting(
                    final(self).pending_atom_triggers@,
                    final(self).pending_atom_qhead as int,
                    a,
                ),
            final(self).pending_atom_triggers@ == if old(self).atom_is_enqueued[atom.0 as int] {
                old(self).pending_atom_triggers@
            } else {
                old(self).pending_atom_triggers@.push(atom)
            },
    {
        proof {
            reveal(queue_ok);
        }
        if self.atom_is_enqueued[atom.index()] {
            return;
        }
        self.atom_is_enqueued.set(atom.index(), true);
        self.pending_atom_triggers.push(atom);
        proof {
            let before = old(self).pending_atom_triggers@;
            let after = self.pending_atom_triggers@;
            let qhead = self.pending_atom_qhead as int;
            assert forall|a: int| waiting(before, qhead, a) implies #[trigger] waiting(
                after,
                qhead,
                a,
            ) by {
                let k = choose|k: int|
                    qhead <= k < before.len() && (#[trigger] before[k]).0 == a;
                assert(after[k].0 == a);
            }
            assert(after[before.len() as int].0 == atom.0);
            assert forall|a: int|
                0 <= a < self.atom_is_enqueued.len()
                    && #[trigger] self.atom_is_enqueued@[a] implies waiting(after, qhead, a) by {
                if a != atom.0 {
                    assert(old(self).atom_is_enqueued@[a]);
                }
            }
        }
    }

    /// Queues every application on `term` and every atom about it for another look.
    fn enqueue_dependents(&mut self, registry: &Registry, term: TermId)
        requires
            old(self).shaped(),
            old(self).matches(registry),
            term.0 < old(self).ctx@.terms.len(),
            forall|i: int|
                0 <= i < old(self).pending_repairs@.len() ==> (#[trigger] old(self).pending_repairs@[i]).0 < old(self).ctx@.terms.len(),
        ensures
            final(self).shaped(),
            *final(self) == (SearchState {
                pending_repairs: final(self).pending_repairs,
                pending_atom_triggers: final(self).pending_atom_triggers,
                atom_is_enqueued: final(self).atom_is_enqueued,
                ..*old(self)
            }),
            old(self).pending_atom_triggers.len() <= final(self).pending_atom_triggers.len(),
            forall|a: int|
                waiting(old(self).pending_atom_triggers@, old(self).pending_atom_qhead as int, a)
                    ==> #[trigger] waiting(
                    final(self).pending_atom_triggers@,
                    old(self).pending_atom_qhead as int,
                    a,
                ),
            forall|a: int|
                0 <= a < old(self).ctx@.atoms.len() && (old(self).ctx@.atoms[a].0 == term
                    || old(self).ctx@.atoms[a].1 == term) ==> #[trigger] waiting(
                    final(self).pending_atom_triggers@,
                    old(self).pending_atom_qhead as int,
                    a,
                ),
            appended(old(self).pending_repairs@, final(self).pending_repairs@),
            forall|i: int|
                0 <= i < final(self).pending_repairs@.len() ==> (
                #[trigger] final(self).pending_repairs@[i]).0 < old(self).ctx@.terms.len(),
            forall|p: int|
                0 <= p < old(self).ctx@.terms.len() && (
                #[trigger] old(self).ctx@.terms[p]).args.contains(term.0 as int) ==> is_appended(
                    old(self).pending_repairs@,
                    final(self).pending_repairs@,
                    TermId(p as u32),
                ),
    {
        let parents = registry.parent_apps(term);
        let ghost repairs0 = self.pending_repairs@;
        let mut i: usize = 0;
        while i < parents.len()
            invariant
                0 <= i <= parents.len(),
                self.shaped(),
                *self == (SearchState { pending_repairs: self.pending_repairs, ..*old(self) }),
                forall|j: int|
                    0 <= j < parents@.len() ==> (#[trigger] parents@[j]).0 < self.ctx@.terms.len(),
                appended(repairs0, self.pending_repairs@),
                forall|j: int|
                    0 <= j < i ==> is_appended(
                        repairs0,
                        self.pending_repairs@,
                        #[trigger] parents@[j],
                    ),
                forall|j: int|
                    0 <= j < self.pending_repairs@.len() ==> (#[trigger] self.pending_repairs@[j]).0
                        < self.ctx@.terms.len(),
            decreases parents.len() - i,
        {
            let ghost before = self.pending_repairs@;
            self.pending_repairs.push_back(parents[i]);
            proof {
                let after = self.pending_repairs@;
                assert(after[before.len() as int] == parents@[i as int]);
                assert forall|x: TermId| is_appended(
                    repairs0,
                    before,
                    x,
                ) implies #[trigger] is_appended(repairs0, after, x) by {
                    let j = choose|j: int|
                        repairs0.len() <= j < before.len() && #[trigger] before[j] == x;
                    assert(after[j] == x);
                }
                assert forall|j: int| 0 <= j < i + 1 implies is_appended(
                    repairs0,
                    after,
                    #[trigger] parents@[j],
                ) by {
                    if j < i {
                        assert(is_appended(repairs0, before, parents@[j]));
                    }
                }
            }
            i += 1;
        }
        let atoms = registry.term_atoms(term);
        let ghost mid = *self;
        let mut i: usize = 0;
        while i < atoms.len()
            invariant
                0 <= i <= atoms.len(),
                self.shaped(),
                *self == (SearchState {
                    pending_atom_triggers: self.pending_atom_triggers,
                    atom_is_enqueued: self.atom_is_enqueued,
                    ..mid
                }),
                mid.pending_atom_triggers.len() <= self.pending_atom_triggers.len(),
                forall|a: int|
                    waiting(mid.pending_atom_triggers@, mid.pending_atom_qhead as int, a)
                        ==> #[trigger] waiting(
                        self.pending_atom_triggers@,
                        mid.pending_atom_qhead as int,
                        a,
                    ),
                forall|j: int|
                    0 <= j < i ==> waiting(
                        self.pending_atom_triggers@,
                        mid.pending_atom_qhead as int,
                        (#[trigger] atoms@[j]).0 as int,
                    ),
                forall|j: int|
                    0 <= j < atoms@.len() ==> (#[trigger] atoms@[j]).0 < self.ctx@.atoms.len(),
            decreases atoms.len() - i,
        {
            let ghost before = *self;
            self.enqueue_atom_trigger(atoms[i]);
            proof {
                assert forall|j: int| 0 <= j < i + 1 implies waiting(
                    self.pending_atom_triggers@,
                    mid.pending_atom_qhead as int,
                    (#[trigger] atoms@[j]).0 as int,
                ) by {
                    if j < i {
                        assert(waiting(
                            before.pending_atom_triggers@,
                            mid.pending_atom_qhead as int,
                            atoms@[j].0 as int,
                        ));
                    }
                }
            }
            i += 1;
        }
        proof {
            assert forall|a: int|
                0 <= a < old(self).ctx@.atoms.len() && (old(self).ctx@.atoms[a].0 == term
                    || old(self).ctx@.atoms[a].1 == term) implies #[trigger] waiting(
                self.pending_atom_triggers@,
                mid.pending_atom_qhead as int,
                a,
            ) by {
                registry.lemma_canonical();
                assert(registry@.atoms[a].0 == term || registry@.atoms[a].1 == term);
                assert(atoms@.contains(TheoryAtomId(a as u32)));
                let j = choose|j: int|
                    0 <= j < atoms@.len() && atoms@[j] == TheoryAtomId(a as u32);
                assert(atoms@[j].0 < registry@.atoms.len());
                assert(waiting(
                    self.pending_atom_triggers@,
                    mid.pending_atom_qhead as int,
                    atoms@[j].0 as int,
                ));
            }
            assert forall|p: int|
                0 <= p < old(self).ctx@.terms.len() && (
                #[trigger] old(self).ctx@.terms[p]).args.contains(term.0 as int) implies is_appended(
                repairs0,
                self.pending_repairs@,
                TermId(p as u32),
            ) by {
                assert(registry@.terms[p].args.contains(term.0 as int));
                assert(parents@.contains(TermId(p as u32)));
                let j = choose|j: int| 0 <= j < parents@.len() && parents@[j] == TermId(p as u32);
                assert(is_appended(repairs0, self.pending_repairs@, parents@[j]));
            }
        }
    }

    /// Queues the applications and atoms on all members of one class for another look.
    fn enqueue_members(&mut self, registry: &Registry, members: &Vec<TermId>)
        requires
            old(self).shaped(),
            old(self).matches(registry),
            forall|j: int|
                0 <= j < members.len() ==> (#[trigger] members[j]).0 < old(self).ctx@.terms.len(),
            forall|i: int|
                0 <= i < old(self).pending_repairs@.len() ==> (
                #[trigger] old(self).pending_repairs@[i]).0 < old(self).ctx@.terms.len(),
        ensures
            final(self).shaped(),
            *final(self) == (SearchState {
                pending_repairs: final(self).pending_repairs,
                pending_atom_triggers: final(self).pending_atom_triggers,
                atom_is_enqueued: final(self).atom_is_enqueued,
                ..*old(self)
            }),
            old(self).pending_atom_triggers.len() <= final(self).pending_atom_triggers.len(),
            forall|a: int|
                waiting(old(self).pending_atom_triggers@, old(self).pending_atom_qhead as int, a)
                    ==> #[trigger] waiting(
                    final(self).pending_atom_triggers@,
                    old(self).pending_atom_qhead as int,
                    a,
                ),
            forall|j: int, a: int|
                #![trigger members[j], old(self).ctx@.atoms[a]]
                0 <= j < members.len() && 0 <= a < old(self).ctx@.atoms.len() && (old(
                    self,
                ).ctx@.atoms[a].0 == members[j] || old(self).ctx@.atoms[a].1 == members[j])
                    ==> waiting(
                    final(self).pending_atom_triggers@,
                    old(self).pending_atom_qhead as int,
                    a,
                ),
            appended(old(self).pending_repairs@, final(self).pending_repairs@),
            forall|i: int|
                0 <= i < final(self).pending_repairs@.len() ==> (
                #[trigger] final(self).pending_repairs@[i]).0 < old(self).ctx@.terms.len(),
            forall|j: int, p: int|
                0 <= j < members.len() && 0 <= p < old(self).ctx@.terms.len()
                    && #[trigger] old(self).ctx@.terms[p].args.contains(
                    (#[trigger] members[j]).0 as int,
                ) ==> is_appended(
                    old(self).pending_repairs@,
                    final(self).pending_repairs@,
                    TermId(p as u32),
                ),
    {
        let ghost ctx = self.ctx@;
        let ghost m0 = self.pending_repairs@;
        let mut i: usize = 0;
        while i < members.len()
            invariant
                0 <= i <= members.len(),
                ctx == self.ctx@,
                m0 == old(self).pending_repairs@,
                self.shaped(),
                self.matches(registry),
                *self == (SearchState {
                    pending_repairs: self.pending_repairs,
                    pending_atom_triggers: self.pending_atom_triggers,
                    atom_is_enqueued: self.atom_is_enqueued,
                    ..*old(self)
                }),
                old(self).pending_atom_triggers.len() <= self.pending_atom_triggers.len(),
                forall|a: int|
                    waiting(
                        old(self).pending_atom_triggers@,
                        old(self).pending_atom_qhead as int,
                        a,
                    ) ==> #[trigger] waiting(
                        self.pending_atom_triggers@,
                        old(self).pending_atom_qhead as int,
                        a,
                    ),
                forall|j: int, a: int|
                    #![trigger members[j], ctx.atoms[a]]
                    0 <= j < i && 0 <= a < ctx.atoms.len() && (ctx.atoms[a].0 == members[j]
                        || ctx.atoms[a].1 == members[j]) ==> waiting(
                        self.pending_atom_triggers@,
                        old(self).pending_atom_qhead as int,
                        a,
                    ),
                forall|j: int|
                    0 <= j < members.len() ==> (#[trigger] members[j]).0 < ctx.terms.len(),
                appended(m0, self.pending_repairs@),
                forall|j: int|
                    0 <= j < self.pending_repairs@.len() ==> (#[trigger] self.pending_repairs@[j]).0
                        < ctx.terms.len(),
                forall|j: int, p: int|
                    0 <= j < i && 0 <= p < ctx.terms.len() && #[trigger] ctx.terms[p].args.contains(
                        (#[trigger] members[j]).0 as int,
                    ) ==> is_appended(m0, self.pending_repairs@, TermId(p as u32)),
            decreases members.len() - i,
        {
            let term = members[i];
            let ghost before = self.pending_repairs@;
            let ghost triggers = self.pending_atom_triggers@;
            self.enqueue_dependents(registry, term);
            proof {
                let qhead = self.pending_atom_qhead as int;
                assert forall|j: int, a: int|
                    #![trigger members[j], ctx.atoms[a]]
                    0 <= j < i + 1 && 0 <= a < ctx.atoms.len() && (ctx.atoms[a].0 == members[j]
                        || ctx.atoms[a].1 == members[j]) implies waiting(
                    self.pending_atom_triggers@,
                    qhead,
                    a,
                ) by {
                    if j < i {
                        assert(waiting(triggers, qhead, a));
                    }
                }
                let now = self.pending_repairs@;
                assert forall|j: int, p: int|
                    0 <= j < i + 1 && 0 <= p < ctx.terms.len()
                        && #[trigger] ctx.terms[p].args.contains(
                        (#[trigger] members[j]).0 as int,
                    ) implies is_appended(m0, now, TermId(p as u32)) by {
                    if j < i {
                        assert(is_appended(m0, before, TermId(p as u32)));
                        let x = choose|x: int|
                            m0.len() <= x < before.len() && #[trigger] before[x] == TermId(
                                p as u32,
                            );
                        assert(now[x] == TermId(p as u32));
                    } else {
                        assert(is_appended(before, now, TermId(p as u32)));
                        let x = choose|x: int|
                            before.len() <= x < now.len() && #[trigger] now[x] == TermId(p as u32);
                        assert(now[x] == TermId(p as u32));
                    }
                }
            }
            i += 1;
        }
    }

    /// Finds one violated active disequality incident to a listed term.
    fn scan_disequalities(&self, members: &Vec<TermId>) -> (found: Option<DisequalityEntry>)
        requires
            self.classes.state().trees(),
            self.classes.count() == self.ctx@.terms.len(),
            self.incidences(),
            diseqs_in_range(self.active_disequalities@, self.ctx@.terms.len()),
            forall|j: int|
                0 <= j < members.len() ==> (#[trigger] members[j]).0 < self.ctx@.terms.len(),
        ensures
            found matches Some(entry) ==> self.active_disequalities@.contains(entry)
                && self.classes.state().same(entry.lhs.0 as int, entry.rhs.0 as int),
            found is None ==> forall|j: int, d: int|
                0 <= j < members.len() && 0 <= d < self.active_disequalities@.len() && ((
                #[trigger] self.active_disequalities@[d]).lhs == #[trigger] members[j]
                    || self.active_disequalities@[d].rhs == members[j])
                    ==> !self.classes.state().same(
                    self.active_disequalities@[d].lhs.0 as int,
                    self.active_disequalities@[d].rhs.0 as int,
                ),
    {
        let mut i: usize = 0;
        while i < members.len()
            invariant
                0 <= i <= members.len(),
                self.classes.state().trees(),
                self.classes.count() == self.ctx@.terms.len(),
                self.incidences(),
                diseqs_in_range(self.active_disequalities@, self.ctx@.terms.len()),
                forall|j: int|
                    0 <= j < members.len() ==> (#[trigger] members[j]).0 < self.ctx@.terms.len(),
                forall|j: int, d: int|
                    0 <= j < i && 0 <= d < self.active_disequalities@.len() && ((
                    #[trigger] self.active_disequalities@[d]).lhs == #[trigger] members[j]
                        || self.active_disequalities@[d].rhs == members[j])
                        ==> !self.classes.state().same(
                        self.active_disequalities@[d].lhs.0 as int,
                        self.active_disequalities@[d].rhs.0 as int,
                    ),
            decreases members.len() - i,
        {
            let found = self.incident_disequality_conflict(members[i]);
            if found.is_some() {
                return found;
            }
            i += 1;
        }
        None
    }

    /// Merges the classes of two terms that are equal for `reason`, records the reason, and enqueues
    /// work for the absorbed class.
    pub fn union_roots(
        &mut self,
        registry: &Registry,
        lhs: TermId,
        rhs: TermId,
        reason: MergeReason,
    ) -> (merge: ClassMerge)
        requires
            old(self).wf(),
            old(self).matches(registry),
            lhs.0 < old(self).ctx@.terms.len(),
            rhs.0 < old(self).ctx@.terms.len(),
            !old(self).classes.state().same(lhs.0 as int, rhs.0 as int),
            reason_valid(old(self).kernel(), old(self).ctx@, lhs, rhs, reason),
        ensures
            final(self).wf(),
            old(self).grows_to(final(self)),
            final(self).pending_assignments == old(self).pending_assignments,
            final(self).pending_merges == old(self).pending_merges,
            final(self).pending_clauses == old(self).pending_clauses,
            final(self).lits == old(self).lits,
            final(self).active_disequalities == old(self).active_disequalities,
            final(self).classes.state().class_count() + 1
                == old(self).classes.state().class_count(),
            forall|t: int|
                0 <= t < old(self).ctx@.terms.len() ==> #[trigger] final(self).classes.state().root(t) == if old(self).classes.state().root(t)
                    == merge.absorbed.0 {
                    merge.survivor.0 as int
                } else {
                    old(self).classes.state().root(t)
                },
            final(self).classes.state().same(lhs.0 as int, rhs.0 as int),
            merge.disequality_conflict is None && old(self).kernel().apart() ==> final(self).kernel().apart(),
            appended(old(self).pending_repairs@, final(self).pending_repairs@),
            final(self).signatures == old(self).signatures,
            final(self).pending_atom_qhead == old(self).pending_atom_qhead,
            final(self).atom_values == old(self).atom_values,
            noticed(old(self).ctx@.atoms, old(self).watch(), final(self).watch()),
            forall|p: int, k: int|
                0 <= p < old(self).ctx@.terms.len() && 0 <= k < old(self).ctx@.terms[p].args.len()
                    && old(self).classes.state().root(
                    #[trigger] old(self).ctx@.terms[p].args[k],
                ) == merge.absorbed.0 ==> is_appended(
                    old(self).pending_repairs@,
                    final(self).pending_repairs@,
                    TermId(p as u32),
                ),
            merge.disequality_conflict matches Some(entry) ==> old(self).active_disequalities@.contains(entry) && final(self).classes.state().same(
                entry.lhs.0 as int,
                entry.rhs.0 as int,
            ),
    {
        let ghost ctx = self.ctx@;
        let ghost k0 = self.kernel();
        proof {
            self.lemma_in_range();
            self.graph.lemma_wf();
        }
        let lhs_root = self.find(lhs);
        let rhs_root = self.find(rhs);
        let absorbed_guess = if self.classes.class_size(lhs_root) < self.classes.class_size(
            rhs_root,
        ) {
            lhs_root
        } else {
            rhs_root
        };
        let members = self.classes.members(absorbed_guess);
        proof {
            self.classes.state().lemma_some_class();
            assert(self.graph.list().len() + self.classes.state().class_count()
                == ctx.terms.len());
            lemma_two_classes(self.classes.state(), lhs_root.0 as int, rhs_root.0 as int);
        }
        let (survivor, absorbed) = self.classes.merge(lhs_root, rhs_root);
        self.graph.push_merge_edge(lhs, rhs, reason);
        let ghost mid = *self;
        let ghost k1 = self.kernel();
        proof {
            assert(absorbed == absorbed_guess);
            assert forall|j: int| 0 <= j < mid.pending_repairs@.len() implies (
            #[trigger] mid.pending_repairs@[j]).0 < ctx.terms.len() by {
                assert(k0.repairs[j].0 < ctx.terms.len());
            }
            assert(mid.graph.list().take(old(self).graph.list().len() as int)
                =~= mid.graph.list().drop_last());
        }
        self.enqueue_members(registry, &members);
        let disequality_conflict = self.scan_disequalities(&members);
        proof {
            assert forall|a: int|
                0 <= a < ctx.atoms.len() && !joined(ctx.atoms, k0.state, a) && joined(
                    ctx.atoms,
                    self.classes.state(),
                    a,
                ) implies #[trigger] waiting(
                self.pending_atom_triggers@,
                self.pending_atom_qhead as int,
                a,
            ) by {
                let l = ctx.atoms[a].0;
                let r = ctx.atoms[a].1;
                let side = if k0.state.root(l.0 as int) == absorbed.0 {
                    l
                } else {
                    r
                };
                assert(k0.state.root(side.0 as int) == absorbed.0);
                assert(members@.contains(TermId(side.0)));
                let j = choose|j: int| 0 <= j < members@.len() && members@[j] == side;
                assert(members[j] == side);
            }
            assert(noticed(ctx.atoms, old(self).watch(), self.watch())) by {
                reveal(noticed);
            }
            let k2 = self.kernel();
            assert forall|x: TermId| k0.repairs.contains(x) implies #[trigger] k2.repairs.contains(
                x,
            ) by {
                let j = choose|j: int| 0 <= j < k0.repairs.len() && k0.repairs[j] == x;
                assert(k2.repairs[j] == x);
            }
            assert forall|j: int, p: int|
                0 <= j < members@.len() && 0 <= p < ctx.terms.len()
                    && #[trigger] ctx.terms[p].args.contains(
                    (#[trigger] members@[j]).0 as int,
                ) implies k2.repairs.contains(TermId(p as u32)) by {
                assert(is_appended(
                    mid.pending_repairs@,
                    self.pending_repairs@,
                    TermId(p as u32),
                ));
            }
            assert forall|p: int, k: int|
                0 <= p < ctx.terms.len() && 0 <= k < ctx.terms[p].args.len() && k0.state.root(
                    #[trigger] ctx.terms[p].args[k],
                ) == absorbed.0 implies is_appended(
                k0.repairs,
                k2.repairs,
                TermId(p as u32),
            ) by {
                let arg = ctx.terms[p].args[k];
                assert(members@.contains(TermId(arg as u32)));
                let j = choose|j: int| 0 <= j < members@.len() && members@[j] == TermId(arg as u32);
                assert(ctx.terms[p].args.contains(members[j].0 as int));
            }
            lemma_merge_kernel(
                k0,
                k2,
                ctx,
                absorbed.0 as int,
                survivor.0 as int,
                lhs,
                rhs,
                reason,
                members@,
            );
            assert(old(self).grows_to(self)) by {
                assert(self.active_disequalities@.take(
                    old(self).active_disequalities@.len() as int,
                ) =~= old(self).active_disequalities@);
                assert(self.lits@.take(old(self).lits@.len() as int) =~= old(self).lits@);
            }
            old(self).lemma_levels_grow(self);
            if disequality_conflict is None && k0.apart() {
                assert forall|d: int| 0 <= d < k2.diseqs.len() implies !k2.state.same(
                    (#[trigger] k2.diseqs[d]).lhs.0 as int,
                    k2.diseqs[d].rhs.0 as int,
                ) by {
                    let l = k2.diseqs[d].lhs;
                    let r = k2.diseqs[d].rhs;
                    assert(!k0.state.same(k0.diseqs[d].lhs.0 as int, k0.diseqs[d].rhs.0 as int));
                    if k0.state.root(l.0 as int) == absorbed.0 {
                        assert(members@.contains(TermId(l.0)));
                        let j = choose|j: int| 0 <= j < members@.len() && members@[j] == l;
                        assert(self.active_disequalities@[d].lhs == members[j]);
                    } else if k0.state.root(r.0 as int) == absorbed.0 {
                        assert(members@.contains(TermId(r.0)));
                        let j = choose|j: int| 0 <= j < members@.len() && members@[j] == r;
                        assert(self.active_disequalities@[d].rhs == members[j]);
                    }
                }
            }
        }
        ClassMerge { survivor, absorbed, disequality_conflict }
    }
}

/// Two different representatives mean at least two classes.
proof fn lemma_two_classes(s: ClassState, a: int, b: int)
    requires
        s.trees(),
        0 <= a < s.parent.len(),
        0 <= b < s.parent.len(),
        a != b,
        s.parent[a].0 == a,
        s.parent[b].0 == b,
    ensures
        s.class_count() >= 2,
{
    lemma_two_roots(s, a, b, s.parent.len() as int);
}

proof fn lemma_two_roots(s: ClassState, a: int, b: int, n: int)
    requires
        0 <= a < s.parent.len(),
        0 <= b < s.parent.len(),
        0 <= n <= s.parent.len(),
        a != b,
        s.parent[a].0 == a,
        s.parent[b].0 == b,
    ensures
        s.roots_to(n) >= (if a < n {
            1int
        } else {
            0
        }) + (if b < n {
            1int
        } else {
            0
        }),
    decreases n,
{
    if n > 0 {
        lemma_two_roots(s, a, b, n - 1);
    }
}

/// The state after a merge is consistent.
proof fn lemma_merge_kernel(
    k0: Core,
    k2: Core,
    ctx: Context,
    absorbed: int,
    survivor: int,
    lhs: TermId,
    rhs: TermId,
    reason: MergeReason,
    members: Seq<TermId>,
)
    requires
        ctx.ok(),
        k0.ok(ctx),
        lhs.0 < ctx.terms.len(),
        rhs.0 < ctx.terms.len(),
        reason_valid(k0, ctx, lhs, rhs, reason),
        k2.state.ok(),
        k2.state.parent.len() == ctx.terms.len(),
        k2.state.class_count() == k0.state.class_count() - 1,
        forall|t: int|
            0 <= t < ctx.terms.len() ==> #[trigger] k2.state.root(t) == if k0.state.root(t)
                == absorbed {
                survivor
            } else {
                k0.state.root(t)
            },
        k2.edges.len() == k0.edges.len() + 1,
        k2.edges.drop_last() == k0.edges,
        k2.edges.last().lhs == lhs,
        k2.edges.last().rhs == rhs,
        k2.edges.last().reason == reason,
        absorbed != survivor,
        ({
            let l = k0.state.root(lhs.0 as int);
            let r = k0.state.root(rhs.0 as int);
            ||| l == absorbed && r == survivor
            ||| l == survivor && r == absorbed
        }),
        k2.table == k0.table,
        k2.diseqs == k0.diseqs,
        k2.lits == k0.lits,
        k2.merges == k0.merges,
        forall|x: TermId| k0.repairs.contains(x) ==> #[trigger] k2.repairs.contains(x),
        forall|i: int| 0 <= i < k2.repairs.len() ==> (#[trigger] k2.repairs[i]).0 < ctx.terms.len(),
        forall|t: int|
            0 <= t < ctx.terms.len() && #[trigger] k0.state.root(t) == absorbed ==> members.contains(
                TermId(t as u32),
            ),
        forall|j: int, p: int|
            0 <= j < members.len() && 0 <= p < ctx.terms.len() && #[trigger] ctx.terms[p].args.contains(
                (#[trigger] members[j]).0 as int,
            ) ==> k2.repairs.contains(TermId(p as u32)),
    ensures
        k2.ok(ctx),
        k2.state.same(lhs.0 as int, rhs.0 as int),
{
    let n = k0.edges.len() as int;
    assert(k2.edges[n] == k2.edges.last());
    assert(k2.justified(ctx, n)) by {
        match reason {
            MergeReason::Congruence { left_parent, right_parent } => {
                let l = left_parent.0 as int;
                let r = right_parent.0 as int;
                assert forall|i: int| 0 <= i < ctx.terms[l].args.len() implies connected(
                    k2.edges,
                    every(),
                    n,
                    #[trigger] ctx.terms[l].args[i],
                    ctx.terms[r].args[i],
                ) by {
                    let x = ctx.terms[l].args[i];
                    let y = ctx.terms[r].args[i];
                    assert forall|e: int| 0 <= e < n implies k0.edges[e] == k2.edges[e] by {
                        assert(k2.edges.drop_last()[e] == k2.edges[e]);
                    }
                    crate::euf::proof_graph::lemma_connected_prefix(
                        k0.edges,
                        k2.edges,
                        every(),
                        n,
                        x,
                        y,
                    );
                    assert(connected(k0.edges, every(), n, x, y) <==> k0.state.same(x, y));
                }
            },
            _ => {},
        }
    }
    assert forall|p: int, k: int|
        0 <= p < ctx.terms.len() && 0 <= k < ctx.terms[p].args.len() && k0.state.root(
            #[trigger] ctx.terms[p].args[k],
        ) == absorbed implies k2.repairs.contains(TermId(p as u32)) by {
        let arg = ctx.terms[p].args[k];
        assert(members.contains(TermId(arg as u32)));
        let j = choose|j: int| 0 <= j < members.len() && members[j] == TermId(arg as u32);
        assert(ctx.terms[p].args.contains(members[j].0 as int));
    }
    assert forall|i: int| 0 <= i < k0.repairs.len() implies k2.repairs.contains(
        #[trigger] k0.repairs[i],
    ) by {
        assert(k0.repairs.contains(k0.repairs[i]));
    }
    k0.lemma_merge(ctx, k2, absorbed, survivor);
}

impl SearchState {
    /// Enqueues one input equality merge.
    pub fn enqueue_input_equality(&mut self, input: MergeInput)
        ensures
            *final(self) == (SearchState {
                pending_merges: final(self).pending_merges,
                ..*old(self)
            }),
            final(self).pending_merges@ == old(self).pending_merges@.push(input),
    {
        self.pending_merges.push_back(input);
    }

    /// Enqueues one assignment whose variable is bound to a theory atom.
    pub fn enqueue_pending_assignment(&mut self, lit: Lit)
        ensures
            *final(self) == (SearchState {
                pending_assignments: final(self).pending_assignments,
                ..*old(self)
            }),
            final(self).pending_assignments@ == old(self).pending_assignments@.push(lit),
    {
        self.pending_assignments.push_back(lit);
    }

    /// Pops the oldest unprocessed assignment.
    pub fn pop_pending_assignment(&mut self) -> (lit: Option<Lit>)
        ensures
            *final(self) == (SearchState {
                pending_assignments: final(self).pending_assignments,
                ..*old(self)
            }),
            lit is None <==> old(self).pending_assignments@.len() == 0,
            lit matches Some(lit) ==> lit == old(self).pending_assignments@[0] && final(self).pending_assignments@ == old(self).pending_assignments@.skip(1),
            lit is None ==> final(self).pending_assignments@ == old(self).pending_assignments@,
    {
        let lit = self.pending_assignments.pop_front();
        proof {
            if lit is Some {
                assert(self.pending_assignments@ =~= old(self).pending_assignments@.skip(1));
            }
        }
        lit
    }

    /// Records one processed theory-atom assignment.
    pub fn assign_theory_atom(&mut self, atom: TheoryAtomId, value: bool, Ghost(lit): Ghost<Lit>)
        requires
            old(self).ctx@.ok(),
            old(self).shaped(),
            old(self).ctx@.bound(lit.var),
            old(self).ctx@.atom(lit) == atom.0,
            lit.negated == !value,
            forall|i: int|
                0 <= i < old(self).lits@.len() ==> (#[trigger] old(self).lits@[i]).var != lit.var,
        ensures
            final(self).shaped(),
            *final(self) == (SearchState {
                atom_values: final(self).atom_values,
                atom_trail: final(self).atom_trail,
                lits: final(self).lits,
                ..*old(self)
            }),
            final(self).lits@ == old(self).lits@.push(lit),
            final(self).atom_values@ == old(self).atom_values@.update(atom.0 as int, Some(value)),
    {
        let ghost ctx = self.ctx@;
        proof {
            assert(ctx.var_atoms[lit.var.0 as int] is Some);
            assert(atom.0 < ctx.atoms.len());
        }
        self.atom_values.set(atom.index(), Some(value));
        self.atom_trail.push(atom);
        self.lits = Ghost(self.lits@.push(lit));
        proof {
            let n = old(self).lits@.len() as int;
            assert forall|i: int| 0 <= i < self.lits@.len() implies self.atom_values[ctx.atom(
                #[trigger] self.lits@[i],
            )] == Some(!self.lits@[i].negated) by {
                if i < n {
                    let other = old(self).lits@[i];
                    assert(self.lits@[i] == other);
                    assert(other.var != lit.var);
                    assert(ctx.bound(other.var));
                    if ctx.atom(other) == atom.0 {
                        assert(ctx.var_atoms[other.var.0 as int]
                            == ctx.var_atoms[lit.var.0 as int]);
                    }
                }
            }
            assert forall|a: int| 0 <= a < self.atom_values.len() && (
            #[trigger] self.atom_values[a]) is Some implies exists|i: int|
                0 <= i < self.lits@.len() && ctx.atom(#[trigger] self.lits@[i]) == a by {
                if a == atom.0 {
                    assert(ctx.atom(self.lits@[n]) == a);
                } else {
                    assert(old(self).atom_values[a] is Some);
                    let i = choose|i: int|
                        0 <= i < old(self).lits@.len() && ctx.atom(#[trigger] old(self).lits@[i])
                            == a;
                    assert(self.lits@[i] == old(self).lits@[i]);
                }
            }
            assert forall|i: int| 0 <= i < self.lits@.len() implies (#[trigger] self.atom_trail[i]).0
                == ctx.atom(self.lits@[i]) by {
                if i < n {
                    assert(old(self).atom_trail[i].0 == ctx.atom(old(self).lits@[i]));
                }
            }
            assert forall|i: int, j: int|
                0 <= i < self.lits@.len() && 0 <= j < self.lits@.len() && (
                #[trigger] self.lits@[i]).var == (#[trigger] self.lits@[j]).var implies i == j by {
                if i < n {
                    assert(self.lits@[i] == old(self).lits@[i]);
                }
                if j < n {
                    assert(self.lits@[j] == old(self).lits@[j]);
                }
            }
            assert forall|i: int| 0 <= i < self.lits@.len() implies ctx.bound(
                (#[trigger] self.lits@[i]).var,
            ) by {
                if i < n {
                    assert(ctx.bound(old(self).lits@[i].var));
                }
            }
        }
    }

    /// Returns the current search-local value of one theory atom.
    pub fn atom_value(&self, atom: TheoryAtomId) -> (value: Option<bool>)
        ensures
            value == if atom.0 < self.atom_values.len() {
                self.atom_values[atom.0 as int]
            } else {
                None
            },
    {
        if atom.index() < self.atom_values.len() {
            self.atom_values[atom.index()]
        } else {
            None
        }
    }

    /// Returns the number of assignments waiting for processing.
    pub fn pending_assignment_count(&self) -> (n: usize)
        ensures
            n == self.pending_assignments@.len(),
    {
        self.pending_assignments.len()
    }

    /// Returns the number of currently assigned theory atoms.
    pub fn assigned_atom_count(&self) -> (n: usize)
        ensures
            n == self.atom_trail@.len(),
    {
        self.atom_trail.len()
    }

    /// Returns whether any search-local work remains.
    pub fn has_pending_work(&self) -> (pending: bool)
        ensures
            pending == (self.pending_assignments@.len() > 0 || self.pending_clauses@.len() > 0
                || self.pending_merges@.len() > 0 || self.pending_repairs@.len() > 0
                || self.pending_atom_qhead < self.pending_atom_triggers.len()),
    {
        self.pending_assignments.len() > 0 || self.pending_clauses.len() > 0
            || self.pending_merges.len() > 0 || self.pending_repairs.len() > 0
            || self.pending_atom_qhead < self.pending_atom_triggers.len()
    }

    /// Adds one disequality to the incidence list of a term.
    fn push_incidence(&mut self, term: TermId, diseq_index: usize)
        requires
            term.0 < old(self).term_disequalities.len(),
        ensures
            *final(self) == (SearchState {
                term_disequalities: final(self).term_disequalities,
                disequality_incident_log: final(self).disequality_incident_log,
                ..*old(self)
            }),
            final(self).term_disequalities.len() == old(self).term_disequalities.len(),
            forall|t: int|
                0 <= t < old(self).term_disequalities.len() ==> (
                #[trigger] final(self).term_disequalities[t])@ == if t == term.0 {
                    old(self).term_disequalities[t]@.push(diseq_index)
                } else {
                    old(self).term_disequalities[t]@
                },
            final(self).disequality_incident_log@ == old(self).disequality_incident_log@.push(
                (term, diseq_index),
            ),
    {
        let mut list = self.term_disequalities[term.index()].clone();
        list.push(diseq_index);
        self.term_disequalities.set(term.index(), list);
        self.disequality_incident_log.push((term, diseq_index));
        proof {
            assert(list@ =~= old(self).term_disequalities[term.0 as int]@.push(diseq_index));
        }
    }

    /// Activates one input disequality.
    pub fn enqueue_input_disequality(&mut self, input: DiseqInput) -> (entry: DisequalityEntry)
        requires
            old(self).shaped(),
            input.lhs.0 < old(self).ctx@.terms.len(),
            input.rhs.0 < old(self).ctx@.terms.len(),
        ensures
            final(self).shaped(),
            *final(self) == (SearchState {
                active_disequalities: final(self).active_disequalities,
                term_disequalities: final(self).term_disequalities,
                disequality_incident_log: final(self).disequality_incident_log,
                ..*old(self)
            }),
            entry == (DisequalityEntry {
                lhs: input.lhs,
                rhs: input.rhs,
                reason_lit: input.reason_lit,
            }),
            final(self).active_disequalities@ == old(self).active_disequalities@.push(entry),
    {
        let entry = DisequalityEntry {
            lhs: input.lhs,
            rhs: input.rhs,
            reason_lit: input.reason_lit,
        };
        let diseq_index = self.active_disequalities.len();
        self.active_disequalities.push(entry);
        self.push_incidence(input.lhs, diseq_index);
        if input.lhs != input.rhs {
            self.push_incidence(input.rhs, diseq_index);
        }
        proof {
            let d0 = old(self).active_disequalities@;
            let d1 = self.active_disequalities@;
            assert(d1.drop_last() =~= d0);
            assert(d1.last() == entry);
            assert forall|t: int| 0 <= t < self.term_disequalities.len() implies (
            #[trigger] self.term_disequalities[t])@ == incident(d1, t) by {
                assert(old(self).term_disequalities[t]@ == incident(d0, t));
            }
            assert(self.disequality_incident_log@ =~= incident_log(d1));
        }
        entry
    }

    /// Records the assignment of a bound literal, and queues its equality or activates its
    /// disequality, which is then returned.
    pub fn assign_literal(&mut self, lit: Lit, atom: TheoryAtomId, lhs: TermId, rhs: TermId) -> (
        activated: Option<DisequalityEntry>)
        requires
            old(self).wf(),
            old(self).ctx@.bound(lit.var),
            old(self).ctx@.atom(lit) == atom.0,
            old(self).ctx@.lhs(lit) == lhs.0,
            old(self).ctx@.rhs(lit) == rhs.0,
            forall|i: int|
                0 <= i < old(self).lits@.len() ==> (#[trigger] old(self).lits@[i]).var != lit.var,
        ensures
            final(self).wf(),
            old(self).grows_to(final(self)),
            final(self).lits@ == old(self).lits@.push(lit),
            final(self).pending_assignments == old(self).pending_assignments,
            final(self).pending_clauses == old(self).pending_clauses,
            final(self).pending_repairs == old(self).pending_repairs,
            final(self).pending_atom_qhead == old(self).pending_atom_qhead,
            final(self).pending_atom_triggers == old(self).pending_atom_triggers,
            final(self).classes == old(self).classes,
            activated is Some <==> lit.negated,
            activated matches Some(entry) ==> {
                &&& entry == (DisequalityEntry { lhs, rhs, reason_lit: lit })
                &&& final(self).active_disequalities@ == old(self).active_disequalities@.push(entry)
            },
            activated is None ==> final(self).active_disequalities@ == old(self).active_disequalities@,
    {
        let ghost ctx = self.ctx@;
        let ghost k0 = self.kernel();
        proof {
            assert(ctx.var_atoms[lit.var.0 as int] is Some);
            assert(ctx.atoms[ctx.atom(lit)].0.0 < ctx.terms.len());
        }
        self.assign_theory_atom(atom, !lit.negated, Ghost(lit));
        let activated = if lit.negated {
            Some(self.enqueue_input_disequality(DiseqInput { lhs, rhs, reason_lit: lit }))
        } else {
            self.enqueue_input_equality(MergeInput { lhs, rhs, reason_lit: lit });
            None
        };
        proof {
            let k1 = self.kernel();
            let input = MergeInput { lhs, rhs, reason_lit: lit };
            let n = k0.lits.len() as int;
            assert(k1.lits[n] == lit);
            assert(k1.lits.contains(lit));
            assert forall|l: Lit| k0.lits.contains(l) implies #[trigger] k1.lits.contains(l) by {
                let i = choose|i: int| 0 <= i < k0.lits.len() && k0.lits[i] == l;
                assert(k1.lits[i] == l);
            }
            assert forall|i: int| 0 <= i < k1.merges.len() implies k0.merges.contains(
                #[trigger] k1.merges[i],
            ) || k1.input_ok(ctx, k1.merges[i]) by {
                if i < k0.merges.len() {
                    assert(k1.merges[i] == k0.merges[i]);
                }
            }
            assert forall|d: int| k0.diseqs.len() <= d < k1.diseqs.len() implies #[trigger] k1.asserted(
                ctx,
                d,
            ) by {}
            assert forall|i: int| 0 <= i < k1.lits.len() implies k1.accounted(
                ctx,
                #[trigger] k1.lits[i],
            ) by {
                let l = k1.lits[i];
                if i < n {
                    assert(k0.lits[i] == l);
                    assert(k0.accounted(ctx, l));
                    if l.negated {
                        let d = choose|d: int|
                            0 <= d < k0.diseqs.len() && (#[trigger] k0.diseqs[d]).lhs.0 == ctx.lhs(l)
                                && k0.diseqs[d].rhs.0 == ctx.rhs(l);
                        assert(k1.diseqs[d] == k0.diseqs[d]);
                    } else if !k0.state.same(ctx.lhs(l), ctx.rhs(l)) {
                        let w = MergeInput {
                            lhs: TermId(ctx.lhs(l) as u32),
                            rhs: TermId(ctx.rhs(l) as u32),
                            reason_lit: l,
                        };
                        let j = choose|j: int| 0 <= j < k0.merges.len() && k0.merges[j] == w;
                        assert(k1.merges[j] == w);
                    }
                } else if lit.negated {
                    assert(k1.diseqs[k0.diseqs.len() as int].lhs == lhs);
                } else {
                    assert(k1.merges[k0.merges.len() as int] == input);
                }
            }
            assert forall|i: int| 0 <= i < k1.repairs.len() implies (#[trigger] k1.repairs[i]).0
                < ctx.terms.len() by {
                assert(k0.repairs[i].0 < ctx.terms.len());
            }
            k0.lemma_requeue(ctx, k1);
            old(self).lemma_grows_refl();
            assert(self.lits@.take(old(self).lits@.len() as int) =~= old(self).lits@);
            assert(self.active_disequalities@.take(old(self).active_disequalities@.len() as int)
                =~= old(self).active_disequalities@);
            assert(old(self).grows_to(self));
            old(self).lemma_levels_grow(self);
        }
        activated
    }
}

impl SearchState {
    /// Removes the oldest waiting application, which is settled or waits once more.
    pub fn pop_repair(&mut self)
        requires
            old(self).wf(),
            old(self).pending_repairs@.len() > 0,
            ({
                let front = old(self).pending_repairs@[0];
                ||| old(self).ctx@.terms[front.0 as int].args.len() == 0
                ||| old(self).kernel().settled(old(self).ctx@, front.0 as int)
                ||| exists|i: int|
                    0 < i < old(self).pending_repairs@.len() && #[trigger] old(self).pending_repairs@[i] == front
            }),
        ensures
            final(self).wf(),
            *final(self) == (SearchState {
                pending_repairs: final(self).pending_repairs,
                ..*old(self)
            }),
            final(self).pending_repairs@ == old(self).pending_repairs@.skip(1),
    {
        let ghost ctx = self.ctx@;
        let ghost k0 = self.kernel();
        self.pending_repairs.pop_front();
        proof {
            let k1 = self.kernel();
            let front = k0.repairs[0];
            assert(k1.repairs =~= k0.repairs.skip(1));
            assert forall|i: int| 0 <= i < k1.repairs.len() implies (#[trigger] k1.repairs[i]).0
                < ctx.terms.len() by {
                assert(k1.repairs[i] == k0.repairs[i + 1]);
                assert(k0.repairs[i + 1].0 < ctx.terms.len());
            }
            assert forall|t: int|
                0 <= t < ctx.terms.len() && ctx.terms[t].args.len() > 0 && k0.repairs.contains(
                    TermId(t as u32),
                ) implies k1.repairs.contains(TermId(t as u32)) || #[trigger] k0.settled(
                ctx,
                t,
            ) by {
                let i = choose|i: int|
                    0 <= i < k0.repairs.len() && k0.repairs[i] == TermId(t as u32);
                if i > 0 {
                    assert(k1.repairs[i - 1] == TermId(t as u32));
                } else if !k0.settled(ctx, t) {
                    let x = choose|x: int|
                        0 < x < k0.repairs.len() && #[trigger] k0.repairs[x] == front;
                    assert(k1.repairs[x - 1] == TermId(t as u32));
                }
            }
            assert forall|i: int| 0 <= i < k1.lits.len() implies k1.accounted(
                ctx,
                #[trigger] k1.lits[i],
            ) by {
                lemma_accounted_same(k0, k1, ctx, k1.lits[i]);
            }
            k0.lemma_requeue(ctx, k1);
            old(self).lemma_grows_refl();
            assert(old(self).grows_to(self));
            old(self).lemma_levels_grow(self);
        }
    }

    /// Removes the oldest waiting equality, whose sides are in one class.
    pub fn pop_merge(&mut self)
        requires
            old(self).wf(),
            old(self).pending_merges@.len() > 0,
            old(self).classes.state().same(
                old(self).pending_merges@[0].lhs.0 as int,
                old(self).pending_merges@[0].rhs.0 as int,
            ),
        ensures
            final(self).wf(),
            *final(self) == (SearchState {
                pending_merges: final(self).pending_merges,
                ..*old(self)
            }),
            final(self).pending_merges@ == old(self).pending_merges@.skip(1),
    {
        let ghost ctx = self.ctx@;
        let ghost k0 = self.kernel();
        self.pending_merges.pop_front();
        proof {
            let k1 = self.kernel();
            assert(k1.merges =~= k0.merges.skip(1));
            assert forall|i: int| 0 <= i < k1.merges.len() implies k0.merges.contains(
                #[trigger] k1.merges[i],
            ) by {
                assert(k1.merges[i] == k0.merges[i + 1]);
            }
            assert forall|i: int| 0 <= i < k1.lits.len() implies k1.accounted(
                ctx,
                #[trigger] k1.lits[i],
            ) by {
                lemma_accounted_pop(k0, k1, ctx, k1.lits[i]);
            }
            assert forall|i: int| 0 <= i < k1.repairs.len() implies (#[trigger] k1.repairs[i]).0
                < ctx.terms.len() by {
                assert(k0.repairs[i].0 < ctx.terms.len());
            }
            k0.lemma_requeue(ctx, k1);
            old(self).lemma_grows_refl();
            assert(old(self).grows_to(self));
            old(self).lemma_levels_grow(self);
        }
    }
}

proof fn lemma_accounted_same(a: Core, b: Core, ctx: Context, lit: Lit)
    requires
        a.ok(ctx),
        a.lits.contains(lit),
        a.state == b.state,
        a.diseqs == b.diseqs,
        a.merges == b.merges,
    ensures
        b.accounted(ctx, lit),
{
    let i = choose|i: int| 0 <= i < a.lits.len() && a.lits[i] == lit;
    assert(a.accounted(ctx, a.lits[i]));
    if lit.negated {
        let d = choose|d: int|
            0 <= d < a.diseqs.len() && (#[trigger] a.diseqs[d]).lhs.0 == ctx.lhs(lit)
                && a.diseqs[d].rhs.0 == ctx.rhs(lit);
        assert(b.diseqs[d].lhs.0 == ctx.lhs(lit));
    }
}

proof fn lemma_accounted_pop(a: Core, b: Core, ctx: Context, lit: Lit)
    requires
        ctx.ok(),
        a.ok(ctx),
        a.lits.contains(lit),
        a.state == b.state,
        a.diseqs == b.diseqs,
        a.merges.len() > 0,
        b.merges == a.merges.skip(1),
        a.state.same(a.merges[0].lhs.0 as int, a.merges[0].rhs.0 as int),
    ensures
        b.accounted(ctx, lit),
{
    let i = choose|i: int| 0 <= i < a.lits.len() && a.lits[i] == lit;
    assert(a.accounted(ctx, a.lits[i]));
    if lit.negated {
        let d = choose|d: int|
            0 <= d < a.diseqs.len() && (#[trigger] a.diseqs[d]).lhs.0 == ctx.lhs(lit)
                && a.diseqs[d].rhs.0 == ctx.rhs(lit);
        assert(b.diseqs[d].lhs.0 == ctx.lhs(lit));
    } else if !a.state.same(ctx.lhs(lit), ctx.rhs(lit)) {
        let w = MergeInput {
            lhs: TermId(ctx.lhs(lit) as u32),
            rhs: TermId(ctx.rhs(lit) as u32),
            reason_lit: lit,
        };
        let j = choose|j: int| 0 <= j < a.merges.len() && a.merges[j] == w;
        assert(ctx.var_atoms[lit.var.0 as int] is Some);
        assert(ctx.atoms[ctx.atom(lit)].0.0 < ctx.terms.len());
        if j == 0 {
            assert(a.merges[0].lhs.0 == ctx.lhs(lit));
            assert(false);
        }
        assert(b.merges[j - 1] == w);
    }
}

/// Different applications have different signatures while every term is alone in its class.
proof fn lemma_identity_signature(s: &SearchState, ctx: Context, a: int, b: int)
    requires
        ctx.ok(),
        0 <= a < ctx.terms.len(),
        0 <= b < ctx.terms.len(),
        forall|t: int| 0 <= t < ctx.terms.len() ==> #[trigger] s.classes.state().root(t) == t,
        s.kernel().signature(ctx, a) == s.kernel().signature(ctx, b),
    ensures
        a == b,
{
    let x = s.kernel().signature(ctx, a);
    let y = s.kernel().signature(ctx, b);
    assert(x[0] == y[0]);
    assert(x.len() == 1 + ctx.terms[a].args.len());
    assert(y.len() == 1 + ctx.terms[b].args.len());
    assert forall|k: int| 0 <= k < ctx.terms[a].args.len() implies ctx.terms[a].args[k]
        == ctx.terms[b].args[k] by {
        assert(x[1 + k] == y[1 + k]);
        let p = ctx.terms[a].args[k];
        let q = ctx.terms[b].args[k];
        assert(s.classes.state().root(p) == p && s.classes.state().root(q) == q);
        assert(x[1 + k] == p as u32 && y[1 + k] == q as u32);
    }
    assert(x[0] == ctx.terms[a].fun as u32 && y[0] == ctx.terms[b].fun as u32);
    assert(ctx.terms[a].args =~= ctx.terms[b].args);
    assert(ctx.terms[a] == ctx.terms[b]);
}

/// Whatever has been added since a level was opened, at which the state was `before`, rolling it back
/// gives the representatives, atom values, disequalities, edges and table of that state, also where
/// work waited then. Where none did, the whole state comes back.
pub proof fn lemma_rollback_restores(
    before: &SearchState,
    opened: &SearchState,
    now: &SearchState,
    level: int,
    after: &SearchState,
)
    requires
        before.wf(),
        after.rollbackable(),
        after.ctx == before.ctx,
        opened.wf(),
        0 <= level < opened.level_markers.len(),
        opened.restored(level) == (Core {
            repairs: Seq::empty(),
            merges: Seq::empty(),
            ..before.kernel()
        }),
        opened.grows_to(now),
        after.kernel() == (Core {
            repairs: after.pending_repairs@,
            merges: after.pending_merges@,
            ..now.restored(level)
        }),
    ensures
        forall|t: int| #[trigger] after.classes.state().root(t) == before.classes.state().root(t),
        after.atom_values@ == before.atom_values@,
        after.active_disequalities@ == before.active_disequalities@,
        after.graph.list() == before.graph.list(),
        table_entries(after.signatures) == table_entries(before.signatures),
        before.settled() && after.kernel() == now.restored(level) ==> after.kernel()
            == before.kernel(),
{
    opened.lemma_restored_grow(now);
    assert(now.restored(level) == opened.restored(level));
    assert(after.kernel().state == before.kernel().state);
    assert(after.kernel().table == before.kernel().table);
    assert(after.kernel().lits == before.kernel().lits);
    assert(after.kernel().diseqs == before.kernel().diseqs);
    assert(after.kernel().edges == before.kernel().edges);
    if before.settled() {
        assert(before.pending_repairs@ =~= Seq::<TermId>::empty());
        assert(before.pending_merges@ =~= Seq::<MergeInput>::empty());
        assert(opened.restored(level) =~= before.kernel());
    }
    let ctx = before.ctx@;
    assert(before.lits@ == after.lits@);
    assert forall|a: int| 0 <= a < ctx.atoms.len() implies after.atom_values@[a]
        == before.atom_values@[a] by {
        if before.atom_values[a] is Some {
            let i = choose|i: int|
                0 <= i < before.lits@.len() && ctx.atom(#[trigger] before.lits@[i]) == a;
            assert(after.atom_values[ctx.atom(after.lits@[i])] == Some(!after.lits@[i].negated));
            assert(before.atom_values[ctx.atom(before.lits@[i])] == Some(!before.lits@[i].negated));
        } else if after.atom_values[a] is Some {
            let i = choose|i: int|
                0 <= i < after.lits@.len() && ctx.atom(#[trigger] after.lits@[i]) == a;
            assert(before.atom_values[ctx.atom(before.lits@[i])] == Some(!before.lits@[i].negated));
        }
    }
    assert(after.atom_values@ =~= before.atom_values@);
}

} // verus!
