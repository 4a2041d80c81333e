//! The theory of equality with uninterpreted functions, as the search over assignments sees it.

use crate::euf::closure::{Context, Core, DisequalityEntry, MergeInput};
use crate::euf::explain::{implies_equal, premises};
use crate::euf::ids::{
    AtomLiteralKind, AtomRef, SortId, SortRef, SymbolId, SymbolRef, TermId, TermRef, TheoryAtomId,
};
use crate::euf::proof_graph::MergeReason;
use crate::euf::registry::{application, ordered, Registry, RegistryView};
use crate::euf::search_state::{
    is_appended, joined, lemma_noticed_refl, lemma_noticed_trans, noticed, queue_ok, reason_valid,
    waiting, ClassMerge, LevelMarker, SearchState,
};
use crate::euf::table::{table_entries, table_len};
use crate::sat::{
    appended_clauses, clause_true, distinct_vars, has_conflict, lit_true, lits_true, refuted_by,
    theory_valid, Assignment, Constraints, Lit, Theory, TheoryClause, TheoryClauseKind, Var,
};
use crate::semantics::{value, Interp};
use crate::telemetry::{
    counted, record_euf_congruence_merge, record_euf_input_disequality, record_euf_input_equality,
    record_euf_theory_conflict, record_euf_theory_propagation, Counters, EufCounter, EufCounters,
    EufGauges,
};
use vstd::prelude::*;

verus! {

/// Under `m`, the atom of every bound variable is true exactly when the variable is.
pub open spec fn interp_matches(ctx: Context, m: Interp, a: Assignment) -> bool {
    forall|var: Var| #[trigger]
        ctx.bound(var) ==> a(var.0 as int) == ctx.equal_in(m, Lit { var, negated: false })
}

/// Some interpretation gives the atoms of all bound variables the assigned values.
pub open spec fn accepts(ctx: Context, a: Assignment) -> bool {
    exists|m: Interp| interp_matches(ctx, m, a)
}

/// The constraints on the bound variables.
pub open spec fn constraints_of(ctx: Context) -> Constraints {
    Constraints { bound: |var: Var| ctx.bound(var), accepted: |a: Assignment| accepts(ctx, a) }
}

/// Every clause holds in the theory, and conflicts are false under the processed literals.
pub open spec fn clauses_sound(ctx: Context, lits: Seq<Lit>, clauses: Seq<TheoryClause>) -> bool {
    &&& forall|i: int|
        0 <= i < clauses.len() ==> theory_valid(
            constraints_of(ctx),
            (#[trigger] clauses[i]).lits@,
        )
    &&& forall|i: int|
        0 <= i < clauses.len() && (#[trigger] clauses[i]).kind
            == TheoryClauseKind::ConflictExplanation ==> refuted_by(clauses[i].lits@, lits)
}

/// The negations of `premises`, followed by `propagated` if there is one.
pub open spec fn clause_of(premises: Seq<Lit>, propagated: Option<Lit>) -> Seq<Lit> {
    let negated = premises.map_values(|l: Lit| l.spec_negate());
    match propagated {
        Some(lit) => negated.push(lit),
        None => negated,
    }
}

/// One clause of this kind and with these literals has been appended.
pub open spec fn clause_added(
    before: Seq<TheoryClause>,
    after: Seq<TheoryClause>,
    kind: TheoryClauseKind,
    lits: Seq<Lit>,
) -> bool {
    &&& after.len() == before.len() + 1
    &&& after.drop_last() == before
    &&& after.last().kind == kind
    &&& after.last().lits@ == lits
}

/// The processed equalities among `support` imply that the endpoints of the literal's atom are equal.
pub open spec fn supports(ctx: Context, c: Core, lit: Lit, support: Seq<Lit>) -> bool {
    premises(c, ctx, support) && implies_equal(ctx, support, ctx.lhs(lit), ctx.rhs(lit))
}

/// The clause propagates the literal, with an explanation.
pub open spec fn propagates(ctx: Context, c: Core, lit: Lit, clause: TheoryClause) -> bool {
    &&& clause.kind == TheoryClauseKind::PropagationExplanation
    &&& exists|support: Seq<Lit>| #[trigger]
        supports(ctx, c, lit, support) && clause.lits@ == clause_of(support, Some(lit))
}

/// A clause propagates the literal.
pub open spec fn announced(ctx: Context, c: Core, lit: Lit, clauses: Seq<TheoryClause>) -> bool {
    exists|j: int| 0 <= j < clauses.len() && propagates(ctx, c, lit, #[trigger] clauses[j])
}

/// What was announced stays so when a clause comes.
proof fn lemma_announced_more(
    ctx: Context,
    c: Core,
    lit: Lit,
    before: Seq<TheoryClause>,
    after: Seq<TheoryClause>,
)
    requires
        announced(ctx, c, lit, before),
        after == before || after.len() == before.len() + 1 && after.drop_last() == before,
    ensures
        announced(ctx, c, lit, after),
{
    let j = choose|j: int|
        0 <= j < before.len() && propagates(ctx, c, lit, #[trigger] before[j]);
    assert(after[j] == before[j]);
}

/// What another look at the atom of the positive literal `lit`, which has this value, appends: where
/// its endpoints are in one class, the clause that propagates an unassigned atom, or the conflict of
/// an atom that is assigned false, each with an explanation; nothing otherwise.
pub open spec fn reconsidered(
    ctx: Context,
    c: Core,
    lit: Lit,
    value: Option<bool>,
    before: Seq<TheoryClause>,
    after: Seq<TheoryClause>,
) -> bool {
    if c.state.same(ctx.lhs(lit), ctx.rhs(lit)) && value is None {
        exists|support: Seq<Lit>| #[trigger]
            supports(ctx, c, lit, support) && clause_added(
                before,
                after,
                TheoryClauseKind::PropagationExplanation,
                clause_of(support, Some(lit)),
            )
    } else if c.state.same(ctx.lhs(lit), ctx.rhs(lit)) && value == Some(false) {
        exists|support: Seq<Lit>| #[trigger]
            supports(ctx, c, lit, support) && clause_added(
                before,
                after,
                TheoryClauseKind::ConflictExplanation,
                clause_of(support.push(lit.spec_negate()), None),
            )
    } else {
        after == before
    }
}

/// The number of clauses of this kind.
pub open spec fn clauses_of(clauses: Seq<TheoryClause>, kind: TheoryClauseKind) -> nat
    decreases clauses.len(),
{
    if clauses.len() == 0 {
        0
    } else {
        clauses_of(clauses.drop_last(), kind) + if clauses.last().kind == kind {
            1nat
        } else {
            0
        }
    }
}

/// The number of literals with this sign.
pub open spec fn literals_of(lits: Seq<Lit>, negated: bool) -> nat
    decreases lits.len(),
{
    if lits.len() == 0 {
        0
    } else {
        (if lits[0].negated == negated {
            1nat
        } else {
            0
        }) + literals_of(lits.skip(1), negated)
    }
}

/// Counters and pending clauses.
pub type Book = (EufCounters, Seq<TheoryClause>);

/// So many congruence merges, equalities and disequalities have been counted, and every clause that
/// has come.
#[verifier::opaque]
pub open spec fn booked(
    before: Book,
    after: Book,
    merges: nat,
    equalities: nat,
    disequalities: nat,
) -> bool {
    let conflict = TheoryClauseKind::ConflictExplanation;
    let propagation = TheoryClauseKind::PropagationExplanation;
    let conflicts = clauses_of(after.1, conflict) - clauses_of(before.1, conflict);
    let propagations = clauses_of(after.1, propagation) - clauses_of(before.1, propagation);
    &&& conflicts >= 0
    &&& propagations >= 0
    &&& after.0.theory_conflicts == counted(before.0.theory_conflicts, conflicts)
    &&& after.0.theory_propagations == counted(before.0.theory_propagations, propagations)
    &&& after.0.congruence_merges == counted(before.0.congruence_merges, merges as int)
    &&& after.0.input_equalities == counted(before.0.input_equalities, equalities as int)
    &&& after.0.input_disequalities == counted(before.0.input_disequalities, disequalities as int)
}

/// What is counted.
pub enum Event {
    /// An asserted equality.
    InputEquality,
    /// An asserted disequality.
    InputDisequality,
    /// A merge of the classes of two congruent applications.
    CongruenceMerge,
    /// A propagation clause.
    Propagation,
    /// A conflict clause.
    Conflict,
}

/// The counters with one more event.
pub open spec fn event_counted(counters: EufCounters, event: Event) -> EufCounters {
    match event {
        Event::InputEquality => EufCounters {
            input_equalities: counted(counters.input_equalities, 1),
            ..counters
        },
        Event::InputDisequality => EufCounters {
            input_disequalities: counted(counters.input_disequalities, 1),
            ..counters
        },
        Event::CongruenceMerge => EufCounters {
            congruence_merges: counted(counters.congruence_merges, 1),
            ..counters
        },
        Event::Propagation => EufCounters {
            theory_propagations: counted(counters.theory_propagations, 1),
            ..counters
        },
        Event::Conflict => EufCounters {
            theory_conflicts: counted(counters.theory_conflicts, 1),
            ..counters
        },
    }
}

/// Where nothing happens nothing is counted.
proof fn lemma_booked_refl(book: Book)
    ensures
        booked(book, book, 0, 0, 0),
{
    reveal(booked);
}

/// Two steps count what each of them counts.
proof fn lemma_booked_trans(
    before: Book,
    mid: Book,
    after: Book,
    m: (nat, nat, nat),
    n: (nat, nat, nat),
)
    requires
        booked(before, mid, m.0, m.1, m.2),
        booked(mid, after, n.0, n.1, n.2),
    ensures
        booked(before, after, m.0 + n.0, m.1 + n.1, m.2 + n.2),
{
    reveal(booked);
}

/// The theory of equality with uninterpreted functions.
pub struct EufTheory {
    /// Events since the counters were last taken.
    tally: Counters,
    /// Permanent canonical registry.
    registry: Registry,
    /// Search-local congruence closure state.
    search: SearchState,
    /// Forward map from theory atoms to variables.
    theory_atom_to_var: Vec<Var>,
    /// Reverse map from variables to theory atoms.
    var_to_theory_atom: Vec<Option<TheoryAtomId>>,
}

impl EufTheory {
    /// The events counted since the counters were last taken.
    pub closed spec fn counters(&self) -> EufCounters {
        self.tally.euf
    }

    /// Counters and pending clauses.
    spec fn book(&self) -> Book {
        (self.tally.euf, self.search.pending_clauses@)
    }

    /// Everything that has been interned.
    pub closed spec fn interned(&self) -> RegistryView {
        self.registry@
    }

    /// The atom bound to each variable.
    pub closed spec fn bindings(&self) -> Seq<Option<TheoryAtomId>> {
        self.var_to_theory_atom@
    }

    /// Terms, atoms and bound variables.
    pub open spec fn context(&self) -> Context {
        Context {
            terms: self.interned().terms,
            atoms: self.interned().atoms,
            var_atoms: self.bindings(),
        }
    }

    /// Registry and variable maps are consistent.
    pub closed spec fn wf(&self) -> bool {
        &&& self.registry.wf()
        &&& self.registry@.terms.len() < 0x7FFF_FFFF
        &&& self.theory_atom_to_var.len() == self.registry@.atoms.len()
        &&& forall|a: int|
            0 <= a < self.theory_atom_to_var.len() ==> {
                let v = #[trigger] self.theory_atom_to_var[a];
                v.0 < self.var_to_theory_atom.len() && self.var_to_theory_atom[v.0 as int] == Some(
                    TheoryAtomId(a as u32),
                )
            }
        &&& forall|v: int|
            0 <= v < self.var_to_theory_atom.len() && (#[trigger] self.var_to_theory_atom[v])
                is Some ==> {
                let a = self.var_to_theory_atom[v]->0;
                a.0 < self.theory_atom_to_var.len() && self.theory_atom_to_var[a.0 as int].0 == v
            }
    }

    /// Some variable is bound to atom `a`.
    pub open spec fn atom_bound(&self, a: int) -> bool {
        exists|v: int|
            0 <= v < self.bindings().len() && #[trigger] self.bindings()[v] == Some(
                TheoryAtomId(a as u32),
            )
    }

    /// Consistent maps give a consistent context.
    pub proof fn lemma_context(&self)
        requires
            self.wf(),
        ensures
            self.context().ok(),
            self.interned().canonical(),
            self.interned().terms.len() < 0x7FFF_FFFF,
            self.interned().sorts.len() <= u32::MAX,
            self.interned().symbols.len() <= u32::MAX,
            self.interned().atoms.len() <= u32::MAX,
            forall|a: int|
                0 <= a < self.interned().atoms.len() ==> #[trigger] self.atom_bound(a),
    {
        let ctx = self.context();
        self.registry.lemma_canonical();
        assert forall|t: int| 0 <= t < ctx.terms.len() implies 0 <= (#[trigger] ctx.terms[t]).fun
            <= u32::MAX by {
            assert(self.registry@.well_sorted(t));
        }
        assert forall|a: int| 0 <= a < ctx.atoms.len() implies (#[trigger] ctx.atoms[a]).0.0
            < ctx.terms.len() && ctx.atoms[a].1.0 < ctx.terms.len() by {
            assert(self.registry@.atoms[a].0.0 <= self.registry@.atoms[a].1.0);
        }
        assert forall|v: int, w: int|
            0 <= v < ctx.var_atoms.len() && 0 <= w < ctx.var_atoms.len() && (
            #[trigger] ctx.var_atoms[v]) is Some && #[trigger] ctx.var_atoms[w]
                == ctx.var_atoms[v] implies v == w by {
            assert(self.var_to_theory_atom[v] is Some);
            assert(self.var_to_theory_atom[w] is Some);
        }
        assert forall|v: int|
            0 <= v < ctx.var_atoms.len() && (#[trigger] ctx.var_atoms[v]) is Some implies (
        ctx.var_atoms[v]->0).0 < ctx.atoms.len() by {
            assert(self.var_to_theory_atom[v] is Some);
        }
        assert forall|a: int|
            0 <= a < self.interned().atoms.len() implies #[trigger] self.atom_bound(a) by {
            let v = self.theory_atom_to_var[a].0 as int;
            assert(self.bindings()[v] == Some(TheoryAtomId(a as u32)));
        }
    }

    /// Creates a theory without sorts, symbols, terms or atoms.
    pub fn new() -> (theory: Self)
        ensures
            theory.wf(),
            theory.interned().sorts.len() == 0,
            theory.interned().symbols.len() == 0,
            theory.interned().terms.len() == 0,
            theory.interned().atoms.len() == 0,
            theory.bindings().len() == 0,
            forall|field: EufCounter| #[trigger] theory.counters().get(field) == 0,
    {
        EufTheory {
            tally: Counters::zero(),
            registry: Registry::new(),
            search: SearchState::new(),
            theory_atom_to_var: Vec::new(),
            var_to_theory_atom: Vec::new(),
        }
    }

    /// Interns one sort.
    pub fn intern_sort(&mut self, sort: SortRef<'_>) -> (id: SortId)
        requires
            old(self).wf(),
            old(self).interned().sorts.len() < u32::MAX,
        ensures
            final(self).counters() == old(self).counters(),
            final(self).wf(),
            final(self).bindings() == old(self).bindings(),
            final(self).interned() == (RegistryView {
                sorts: if old(self).interned().sorts.contains(sort.sort()) {
                    old(self).interned().sorts
                } else {
                    old(self).interned().sorts.push(sort.sort())
                },
                ..old(self).interned()
            }),
            id.0 < final(self).interned().sorts.len(),
            final(self).interned().sorts[id.0 as int] == sort.sort(),
    {
        self.registry.intern_sort(sort)
    }

    /// Interns one symbol.
    pub fn intern_symbol(&mut self, symbol: SymbolRef<'_>) -> (id: SymbolId)
        requires
            old(self).wf(),
            old(self).interned().symbols.len() < u32::MAX,
        ensures
            final(self).counters() == old(self).counters(),
            final(self).wf(),
            final(self).bindings() == old(self).bindings(),
            final(self).interned() == (RegistryView {
                symbols: if old(self).interned().symbols.contains(symbol.symbol()) {
                    old(self).interned().symbols
                } else {
                    old(self).interned().symbols.push(symbol.symbol())
                },
                ..old(self).interned()
            }),
            id.0 < final(self).interned().symbols.len(),
            final(self).interned().symbols[id.0 as int] == symbol.symbol(),
    {
        self.registry.intern_symbol(symbol)
    }

    /// Interns one term.
    pub fn intern_term(&mut self, term: TermRef<'_>, sort: SortId) -> (id: TermId)
        requires
            old(self).wf(),
            old(self).interned().terms.len() < 0x7FFF_FFFE,
            old(self).interned().accepts(term.fun, term.args@, sort),
        ensures
            final(self).counters() == old(self).counters(),
            final(self).wf(),
            final(self).bindings() == old(self).bindings(),
            final(self).interned() == (if old(self).interned().terms.contains(
                application(term.fun, term.args@),
            ) {
                old(self).interned()
            } else {
                RegistryView {
                    terms: old(self).interned().terms.push(application(term.fun, term.args@)),
                    term_sorts: old(self).interned().term_sorts.push(sort),
                    ..old(self).interned()
                }
            }),
            id.0 < final(self).interned().terms.len(),
            final(self).interned().terms[id.0 as int] == application(term.fun, term.args@),
            final(self).interned().term_sorts[id.0 as int] == sort,
    {
        self.registry.intern_term(term, sort)
    }

    /// The variable may be bound to the equality of the two terms: neither is bound otherwise yet.
    pub open spec fn bindable(&self, lhs: TermId, rhs: TermId, sat_var: Var) -> bool {
        &&& forall|v: int|
            0 <= v < self.bindings().len() && (#[trigger] self.bindings()[v]) is Some
                && self.interned().atoms[(self.bindings()[v]->0).0 as int] == ordered(lhs, rhs) ==> v
                == sat_var.0
        &&& sat_var.0 < self.bindings().len() && self.bindings()[sat_var.0 as int] is Some
            ==> self.interned().atoms[(self.bindings()[sat_var.0 as int]->0).0 as int] == ordered(
            lhs,
            rhs,
        )
    }

    /// Interns one equality atom and binds it to `sat_var`.
    pub fn intern_equality_atom(&mut self, lhs: TermId, rhs: TermId, sat_var: Var) -> (atom:
        TheoryAtomId)
        requires
            old(self).wf(),
            old(self).interned().atoms.len() < u32::MAX,
            lhs.0 < old(self).interned().terms.len(),
            rhs.0 < old(self).interned().terms.len(),
            sat_var.0 < u32::MAX,
            old(self).bindable(lhs, rhs, sat_var),
        ensures
            final(self).counters() == old(self).counters(),
            final(self).wf(),
            final(self).interned() == (RegistryView {
                atoms: if old(self).interned().atoms.contains(ordered(lhs, rhs)) {
                    old(self).interned().atoms
                } else {
                    old(self).interned().atoms.push(ordered(lhs, rhs))
                },
                ..old(self).interned()
            }),
            atom.0 < final(self).interned().atoms.len(),
            final(self).interned().atoms[atom.0 as int] == ordered(lhs, rhs),
            sat_var.0 < final(self).bindings().len(),
            final(self).bindings().len() == if old(self).bindings().len() <= sat_var.0 {
                sat_var.0 as int + 1
            } else {
                old(self).bindings().len() as int
            },
            forall|v: int|
                0 <= v < final(self).bindings().len() ==> #[trigger] final(self).bindings()[v]
                    == if v == sat_var.0 {
                    Some(atom)
                } else if v < old(self).bindings().len() {
                    old(self).bindings()[v]
                } else {
                    None
                },
    {
        proof {
            self.lemma_context();
        }
        let ghost ends = ordered(lhs, rhs);
        let ghost atoms0 = self.registry@.atoms;
        let atom = self.registry.intern_atom(AtomRef::Eq(lhs, rhs));
        let known = self.theory_atom_to_var.len();
        proof {
            if atoms0.contains(ends) {
                assert(atom.0 < known);
                let v = self.theory_atom_to_var[atom.0 as int];
                assert(self.bindings()[v.0 as int] == Some(atom));
                assert(v.0 == sat_var.0);
            } else {
                assert(atom.0 == known) by {
                    if atom.0 < atoms0.len() {
                        assert(atoms0[atom.0 as int] == ends);
                        assert(atoms0.contains(ends));
                    }
                }
            }
        }
        if atom.index() >= known {
            self.theory_atom_to_var.push(sat_var);
        }
        if self.var_to_theory_atom.len() <= sat_var.index() {
            self.var_to_theory_atom.resize(sat_var.index() + 1, None);
            proof {
                assert forall|v: int|
                    old(self).bindings().len() <= v < self.var_to_theory_atom.len() implies
                    #[trigger] self.var_to_theory_atom[v] == None::<TheoryAtomId> by {}
            }
        }
        proof {
            let prior = self.var_to_theory_atom[sat_var.0 as int];
            if prior is Some {
                assert(old(self).bindings()[sat_var.0 as int] == prior);
                let b = prior->0;
                assert(atoms0[b.0 as int] == ends);
                assert(self.registry@.atoms[b.0 as int] == ends);
                assert(self.registry@.atoms[atom.0 as int] == ends);
                self.registry.lemma_canonical();
                assert(b.0 == atom.0);
            }
        }
        self.var_to_theory_atom.set(sat_var.index(), Some(atom));
        proof {
            let n = old(self).bindings().len() as int;
            assert forall|v: int| 0 <= v < self.bindings().len() implies #[trigger] self.bindings()[v]
                == if v == sat_var.0 {
                Some(atom)
            } else if v < n {
                old(self).bindings()[v]
            } else {
                None
            } by {}
            assert forall|a: int| 0 <= a < self.theory_atom_to_var.len() implies {
                let v = #[trigger] self.theory_atom_to_var[a];
                v.0 < self.var_to_theory_atom.len() && self.var_to_theory_atom[v.0 as int] == Some(
                    TheoryAtomId(a as u32),
                )
            } by {
                if a != atom.0 {
                    let v = old(self).theory_atom_to_var[a];
                    assert(self.theory_atom_to_var[a] == v);
                    assert(old(self).var_to_theory_atom[v.0 as int] == Some(TheoryAtomId(a as u32)));
                    if v.0 == sat_var.0 {
                        assert(old(self).bindings()[sat_var.0 as int] is Some);
                        assert(atoms0[a] == ends);
                        self.registry.lemma_canonical();
                        assert(self.registry@.atoms[a] == self.registry@.atoms[atom.0 as int]);
                    }
                }
            }
            assert forall|v: int|
                0 <= v < self.var_to_theory_atom.len() && (#[trigger] self.var_to_theory_atom[v])
                    is Some implies {
                let a = self.var_to_theory_atom[v]->0;
                a.0 < self.theory_atom_to_var.len() && self.theory_atom_to_var[a.0 as int].0 == v
            } by {
                if v != sat_var.0 {
                    assert(old(self).var_to_theory_atom[v] is Some);
                    let a = old(self).var_to_theory_atom[v]->0;
                    assert(self.theory_atom_to_var[a.0 as int] == old(self).theory_atom_to_var[a.0 as int]);
                }
            }
        }
        atom
    }

    /// Returns the variable bound to the equality of two terms, if there is one.
    pub fn equality_var(&self, lhs: TermId, rhs: TermId) -> (var: Option<Var>)
        requires
            self.wf(),
        ensures
            var matches Some(var) ==> {
                &&& var.0 < self.bindings().len()
                &&& self.bindings()[var.0 as int] is Some
                &&& (self.bindings()[var.0 as int]->0).0 < self.interned().atoms.len()
                &&& self.interned().atoms[(self.bindings()[var.0 as int]->0).0 as int] == ordered(
                    lhs,
                    rhs,
                )
            },
            var is None ==> !self.interned().atoms.contains(ordered(lhs, rhs)),
    {
        match self.registry.find_atom(lhs, rhs) {
            Some(atom) => Some(self.theory_atom_to_var[atom.index()]),
            None => None,
        }
    }

    /// Returns the argument sorts of one symbol.
    pub fn symbol_arg_sorts(&self, symbol: SymbolId) -> (sorts: &[SortId])
        requires
            self.wf(),
            symbol.0 < self.interned().symbols.len(),
        ensures
            sorts@ == self.interned().symbols[symbol.0 as int].arg_sorts,
    {
        self.registry.symbol_arg_sorts(symbol)
    }

    /// Returns the canonical atom, if any, bound to `var`.
    pub fn theory_atom_for_var(&self, var: Var) -> (atom: Option<TheoryAtomId>)
        ensures
            atom == if var.0 < self.bindings().len() {
                self.bindings()[var.0 as int]
            } else {
                None
            },
    {
        if var.index() < self.var_to_theory_atom.len() {
            self.var_to_theory_atom[var.index()]
        } else {
            None
        }
    }

    /// Decodes one literal as one atom literal, if applicable.
    pub fn atom_literal_kind(&self, lit: Lit) -> (kind: Option<AtomLiteralKind>)
        requires
            self.wf(),
        ensures
            kind is Some <==> self.context().bound(lit.var),
            kind matches Some(AtomLiteralKind::Eq { lhs, rhs, positive }) ==> lhs.0
                == self.context().lhs(lit) && rhs.0 == self.context().rhs(lit) && positive
                == !lit.negated,
    {
        match self.theory_atom_for_var(lit.var()) {
            None => None,
            Some(atom) => {
                proof {
                    assert(self.var_to_theory_atom[lit.var.0 as int] is Some);
                }
                match self.registry.atom_ref(atom) {
                    AtomRef::Eq(lhs, rhs) => Some(
                        AtomLiteralKind::Eq { lhs, rhs, positive: !lit.is_negated() },
                    ),
                }
            },
        }
    }

    /// Returns the sort of one interned term.
    pub fn term_sort(&self, term: TermId) -> (sort: SortId)
        requires
            self.wf(),
            term.0 < self.interned().terms.len(),
        ensures
            sort == self.interned().term_sorts[term.0 as int],
    {
        self.registry.term_sort(term)
    }

    /// Returns the number of interned terms.
    pub fn num_terms(&self) -> (n: usize)
        requires
            self.wf(),
        ensures
            n == self.interned().terms.len(),
    {
        self.registry.num_terms()
    }

    /// Returns the number of interned symbols.
    pub fn num_symbols(&self) -> (n: usize)
        requires
            self.wf(),
        ensures
            n == self.interned().symbols.len(),
    {
        self.registry.num_symbols()
    }

    /// Returns the number of interned sorts.
    pub fn num_sorts(&self) -> (n: usize)
        requires
            self.wf(),
        ensures
            n == self.interned().sorts.len(),
    {
        self.registry.num_sorts()
    }

    /// Returns the number of interned atoms.
    pub fn num_atoms(&self) -> (n: usize)
        requires
            self.wf(),
        ensures
            n == self.interned().atoms.len(),
    {
        self.registry.num_atoms()
    }

    /// How much work the search still has to do: assignments, clauses, merges, repairs and atom
    /// triggers.
    pub closed spec fn backlog(&self) -> (nat, nat, nat, nat, nat) {
        (
            self.search.pending_assignments@.len(),
            self.search.pending_clauses@.len(),
            self.search.pending_merges@.len(),
            self.search.pending_repairs@.len(),
            if self.search.pending_atom_qhead <= self.search.pending_atom_triggers@.len() {
                (self.search.pending_atom_triggers@.len() - self.search.pending_atom_qhead) as nat
            } else {
                0
            },
        )
    }

    /// How much the search holds: assigned atoms, active disequalities, entries of the congruence
    /// table and proof edges.
    pub closed spec fn holdings(&self) -> (nat, nat, nat, nat) {
        (
            self.search.atom_trail@.len(),
            self.search.active_disequalities@.len(),
            table_entries(self.search.signatures).dom().len(),
            self.search.graph.list().len(),
        )
    }

    /// Returns the number of atom triggers that wait.
    fn waiting_triggers(&self) -> (n: usize)
        ensures
            n == self.backlog().4,
    {
        if self.search.pending_atom_qhead <= self.search.pending_atom_triggers.len() {
            self.search.pending_atom_triggers.len() - self.search.pending_atom_qhead
        } else {
            0
        }
    }

    /// Returns whether any search-local work remains.
    pub fn has_pending_work(&self) -> (answer: bool)
        ensures
            answer == (self.backlog() != (0nat, 0nat, 0nat, 0nat, 0nat)),
    {
        self.search.pending_assignments.len() > 0 || self.search.pending_clauses.len() > 0
            || self.search.pending_merges.len() > 0 || self.search.pending_repairs.len() > 0
            || self.waiting_triggers() > 0
    }

    /// Captures the current gauges for one telemetry sample boundary.
    pub fn telemetry_gauges(&self) -> (gauges: EufGauges)
        requires
            self.wf(),
        ensures
            gauges.registry_terms == self.interned().terms.len(),
            gauges.registry_atoms == self.interned().atoms.len(),
            gauges.pending_assignments == self.backlog().0,
            gauges.pending_theory_clauses == self.backlog().1,
            gauges.pending_merges == self.backlog().2,
            gauges.pending_repairs == self.backlog().3,
            gauges.pending_atom_triggers == self.backlog().4,
            gauges.assigned_atoms == self.holdings().0,
            gauges.active_disequalities == self.holdings().1,
            gauges.congruence_table_entries == self.holdings().2,
            gauges.proof_edges == self.holdings().3,
    {
        EufGauges {
            registry_terms: self.num_terms() as u64,
            registry_atoms: self.num_atoms() as u64,
            pending_assignments: self.search.pending_assignment_count() as u64,
            assigned_atoms: self.search.assigned_atom_count() as u64,
            pending_merges: self.search.pending_merges.len() as u64,
            pending_repairs: self.search.pending_repairs.len() as u64,
            pending_atom_triggers: self.waiting_triggers() as u64,
            pending_theory_clauses: self.search.pending_clauses.len() as u64,
            active_disequalities: self.search.active_disequalities.len() as u64,
            congruence_table_entries: table_len(&self.search.signatures) as u64,
            proof_edges: self.search.graph.edge_count() as u64,
        }
    }

    /// The search state belongs to the current registry and maps.
    spec fn live(&self) -> bool {
        &&& self.wf()
        &&& self.search.wf()
        &&& self.search.ctx@ == self.context()
    }

    /// Pending clauses are sound, and there is a conflict exactly when a disequality is violated.
    spec fn reporting(&self) -> bool {
        &&& clauses_sound(self.context(), self.search.lits@, self.search.pending_clauses@)
        &&& has_conflict(self.search.pending_clauses@) <==> !self.search.kernel().apart()
    }

    /// Only the search state differs from `other`, and no processed literal has changed.
    spec fn same_search(&self, other: &EufTheory) -> bool {
        &&& self.registry == other.registry
        &&& self.theory_atom_to_var == other.theory_atom_to_var
        &&& self.var_to_theory_atom == other.var_to_theory_atom
        &&& self.search.pending_assignments == other.search.pending_assignments
        &&& self.search.lits == other.search.lits
        &&& self.search.atom_values == other.search.atom_values
        &&& self.search.level_markers == other.search.level_markers
        &&& self.search.ctx == other.search.ctx
    }

    /// The positive literal of an atom.
    spec fn positive(&self, a: int) -> Lit {
        Lit { var: self.theory_atom_to_var@[a], negated: false }
    }

    /// If the endpoints of the atom are in one class and it has no value, it has been announced.
    spec fn answered(&self, a: int) -> bool {
        joined(self.context().atoms, self.search.classes.state(), a)
            && self.search.atom_values@[a] is None ==> announced(
            self.context(),
            self.search.kernel(),
            self.positive(a),
            self.search.pending_clauses@,
        )
    }

    /// The literal of an atom speaks of it.
    proof fn lemma_positive(&self, a: int)
        requires
            self.wf(),
            0 <= a < self.context().atoms.len(),
        ensures
            self.context().bound(self.positive(a).var),
            self.context().atom(self.positive(a)) == a,
            self.context().lhs(self.positive(a)) == self.context().atoms[a].0.0,
            self.context().rhs(self.positive(a)) == self.context().atoms[a].1.0,
    {
        self.lemma_context();
        let var = self.theory_atom_to_var[a];
        assert(self.var_to_theory_atom[var.0 as int] == Some(TheoryAtomId(a as u32)));
    }

    /// The endpoints of the atom are known to be equal.
    pub closed spec fn equated(&self, a: int) -> bool {
        joined(self.context().atoms, self.search.classes.state(), a)
    }

    /// Neither literal of the atom has been assigned.
    pub closed spec fn unassigned(&self, a: int) -> bool {
        let trail = self.search.lits@ + self.search.pending_assignments@;
        forall|i: int| 0 <= i < trail.len() ==> (#[trigger] trail[i]).var != self.positive(a).var
    }

    /// The clause propagates the positive literal of the atom, with processed equalities that imply
    /// it as premises.
    pub closed spec fn announces(&self, a: int, clause: TheoryClause) -> bool {
        propagates(self.context(), self.search.kernel(), self.positive(a), clause)
    }

    /// Every unassigned atom whose endpoints have come to be equal is propagated by one of the
    /// clauses.
    pub open spec fn news_of(&self, before: &EufTheory, clauses: Seq<TheoryClause>) -> bool {
        forall|a: int|
            0 <= a < self.context().atoms.len() && !before.equated(a) && self.equated(a)
                && #[trigger] self.unassigned(a) ==> exists|j: int|
                0 <= j < clauses.len() && self.announces(a, #[trigger] clauses[j])
    }

    /// Returns whether a conflict has already been produced and not been handed out.
    fn has_pending_conflict(&self) -> (any: bool)
        ensures
            any == has_conflict(self.search.pending_clauses@),
    {
        let mut i: usize = 0;
        while i < self.search.pending_clauses.len()
            invariant
                0 <= i <= self.search.pending_clauses.len(),
                forall|j: int|
                    0 <= j < i ==> (#[trigger] self.search.pending_clauses@[j]).kind
                        != TheoryClauseKind::ConflictExplanation,
            decreases self.search.pending_clauses.len() - i,
        {
            if self.search.pending_clauses[i].kind == TheoryClauseKind::ConflictExplanation {
                return true;
            }
            i += 1;
        }
        false
    }

    /// Counts one event.
    fn note(&mut self, event: Event)
        ensures
            *final(self) == (EufTheory { tally: final(self).tally, ..*old(self) }),
            final(self).tally.euf == event_counted(old(self).tally.euf, event),
    {
        match event {
            Event::InputEquality => {
                if self.tally.euf.input_equalities < u64::MAX {
                    record_euf_input_equality(&mut self.tally);
                }
            },
            Event::InputDisequality => {
                if self.tally.euf.input_disequalities < u64::MAX {
                    record_euf_input_disequality(&mut self.tally);
                }
            },
            Event::CongruenceMerge => {
                if self.tally.euf.congruence_merges < u64::MAX {
                    record_euf_congruence_merge(&mut self.tally);
                }
            },
            Event::Propagation => {
                if self.tally.euf.theory_propagations < u64::MAX {
                    record_euf_theory_propagation(&mut self.tally);
                }
            },
            Event::Conflict => {
                if self.tally.euf.theory_conflicts < u64::MAX {
                    record_euf_theory_conflict(&mut self.tally);
                }
            },
        }
    }

    /// Hands out the counters and starts them again at zero.
    pub fn take_counters(&mut self) -> (counters: EufCounters)
        ensures
            counters == old(self).counters(),
            forall|field: EufCounter| #[trigger] final(self).counters().get(field) == 0,
            final(self).interned() == old(self).interned(),
            final(self).bindings() == old(self).bindings(),
            final(self).wf() == old(self).wf(),
            final(self).searching() == old(self).searching(),
            final(self).trail() == old(self).trail(),
            final(self).levels() == old(self).levels(),
            final(self).drained() == old(self).drained(),
            final(self).conflicted() == old(self).conflicted(),
    {
        let counters = self.tally.euf;
        self.tally = Counters::zero();
        counters
    }

    /// The processed literals whose assignment has not been looked at.
    pub closed spec fn unprocessed(&self) -> Seq<Lit> {
        self.search.pending_assignments@
    }

    /// The number of classes of terms that are known to be equal.
    pub closed spec fn class_count(&self) -> nat {
        self.search.classes.state().class_count()
    }

    /// Every assignment that was looked at, every clause handed out and some of the merges of two
    /// classes have been counted.
    pub open spec fn tallied(&self, before: &EufTheory, clauses: Seq<TheoryClause>) -> bool {
        let old_counts = before.counters();
        let counts = self.counters();
        &&& counts.input_equalities == counted(
            old_counts.input_equalities,
            literals_of(before.unprocessed(), false) as int,
        )
        &&& counts.input_disequalities == counted(
            old_counts.input_disequalities,
            literals_of(before.unprocessed(), true) as int,
        )
        &&& counts.theory_propagations == counted(
            old_counts.theory_propagations,
            clauses_of(clauses, TheoryClauseKind::PropagationExplanation) as int,
        )
        &&& counts.theory_conflicts == counted(
            old_counts.theory_conflicts,
            clauses_of(clauses, TheoryClauseKind::ConflictExplanation) as int,
        )
        &&& exists|m: nat|
            m <= before.class_count() - self.class_count() && counts.congruence_merges
                == #[trigger] counted(old_counts.congruence_merges, m as int)
    }

    /// Builds one theory clause from already explained premise literals.
    fn build_theory_clause(
        premises: &Vec<Lit>,
        propagated: Option<Lit>,
        kind: TheoryClauseKind,
    ) -> (clause: TheoryClause)
        ensures
            clause.kind == kind,
            clause.lits@ == clause_of(premises@, propagated),
    {
        let mut lits: Vec<Lit> = Vec::new();
        let mut i: usize = 0;
        let ghost negated = premises@.map_values(|l: Lit| l.spec_negate());
        while i < premises.len()
            invariant
                0 <= i <= premises.len(),
                negated == premises@.map_values(|l: Lit| l.spec_negate()),
                lits@ == negated.take(i as int),
            decreases premises.len() - i,
        {
            lits.push(premises[i].negate());
            proof {
                assert(negated.take(i as int + 1) =~= negated.take(i as int).push(
                    negated[i as int],
                ));
            }
            i += 1;
        }
        proof {
            assert(negated.take(i as int) =~= negated);
        }
        if let Some(lit) = propagated {
            lits.push(lit);
        }
        TheoryClause { lits, kind }
    }

    /// Appends one clause to those waiting to be handed out.
    fn push_clause(&mut self, clause: TheoryClause)
        requires
            old(self).live(),
            clauses_sound(
                old(self).context(),
                old(self).search.lits@,
                old(self).search.pending_clauses@,
            ),
            theory_valid(constraints_of(old(self).context()), clause.lits@),
            clause.kind == TheoryClauseKind::ConflictExplanation ==> refuted_by(
                clause.lits@,
                old(self).search.lits@,
            ),
        ensures
            final(self).live(),
            booked(old(self).book(), final(self).book(), 0, 0, 0),
            final(self).same_search(old(self)),
            final(self).search.kernel() == old(self).search.kernel(),
            final(self).search.pending_atom_qhead == old(self).search.pending_atom_qhead,
            final(self).search.pending_atom_triggers == old(self).search.pending_atom_triggers,
            clauses_sound(
                final(self).context(),
                final(self).search.lits@,
                final(self).search.pending_clauses@,
            ),
            final(self).search.pending_clauses@ == old(self).search.pending_clauses@.push(clause),
            has_conflict(final(self).search.pending_clauses@) <==> has_conflict(
                old(self).search.pending_clauses@,
            ) || clause.kind == TheoryClauseKind::ConflictExplanation,
    {
        let ghost before = self.search.pending_clauses@;
        let event = match clause.kind {
            TheoryClauseKind::ConflictExplanation => Event::Conflict,
            TheoryClauseKind::PropagationExplanation => Event::Propagation,
        };
        self.search.pending_clauses.push(clause);
        proof {
            old(self).search.lemma_scratch(&self.search);
            let after = self.search.pending_clauses@;
            assert forall|i: int| 0 <= i < after.len() implies theory_valid(
                constraints_of(self.context()),
                (#[trigger] after[i]).lits@,
            ) && (after[i].kind == TheoryClauseKind::ConflictExplanation ==> refuted_by(
                after[i].lits@,
                self.search.lits@,
            )) by {
                if i < before.len() {
                    assert(after[i] == before[i]);
                }
            }
            if has_conflict(before) {
                let i = choose|i: int|
                    0 <= i < before.len() && (#[trigger] before[i]).kind
                        == TheoryClauseKind::ConflictExplanation;
                assert(after[i].kind == TheoryClauseKind::ConflictExplanation);
            }
            if clause.kind == TheoryClauseKind::ConflictExplanation {
                assert(after[before.len() as int].kind == TheoryClauseKind::ConflictExplanation);
            }
            if has_conflict(after) {
                let i = choose|i: int|
                    0 <= i < after.len() && (#[trigger] after[i]).kind
                        == TheoryClauseKind::ConflictExplanation;
                if i < before.len() {
                    assert(before[i].kind == TheoryClauseKind::ConflictExplanation);
                }
            }
        }
        self.note(event);
        proof {
            let after = self.search.pending_clauses@;
            assert(booked(old(self).book(), self.book(), 0, 0, 0)) by {
                reveal(booked);
                assert(after.drop_last() =~= before);
            }
        }
    }

    /// Emits one conflict clause for a violated disequality.
    fn emit_disequality_conflict(&mut self, diseq: DisequalityEntry)
        requires
            old(self).live(),
            old(self).search.active_disequalities@.contains(diseq),
            old(self).search.classes.state().same(diseq.lhs.0 as int, diseq.rhs.0 as int),
            clauses_sound(
                old(self).context(),
                old(self).search.lits@,
                old(self).search.pending_clauses@,
            ),
        ensures
            final(self).live(),
            booked(old(self).book(), final(self).book(), 0, 0, 0),
            final(self).same_search(old(self)),
            final(self).search.kernel() == old(self).search.kernel(),
            final(self).search.pending_atom_qhead == old(self).search.pending_atom_qhead,
            final(self).search.pending_atom_triggers == old(self).search.pending_atom_triggers,
            final(self).reporting(),
            has_conflict(final(self).search.pending_clauses@),
    {
        let ghost ctx = self.context();
        let ghost c = self.search.kernel();
        proof {
            self.search.lemma_in_range();
            let d = choose|d: int| 0 <= d < c.diseqs.len() && c.diseqs[d] == diseq;
            assert(self.search.active_disequalities@[d] == diseq);
            assert(c.asserted(ctx, d));
            assert(!c.apart()) by {
                assert(c.state.same(c.diseqs[d].lhs.0 as int, c.diseqs[d].rhs.0 as int));
            }
        }
        let mut explanation: Vec<Lit> = Vec::new();
        self.search.explain_conflict(&self.registry, diseq, &mut explanation);
        let clause = Self::build_theory_clause(
            &explanation,
            None,
            TheoryClauseKind::ConflictExplanation,
        );
        proof {
            lemma_conflict_clause(ctx, c, diseq, explanation@, clause.lits@);
        }
        self.push_clause(clause);
    }

    /// Emits a conflict if one active disequality is currently violated.
    fn check_disequality(&mut self, diseq: DisequalityEntry)
        requires
            old(self).live(),
            old(self).search.active_disequalities@.contains(diseq),
            clauses_sound(
                old(self).context(),
                old(self).search.lits@,
                old(self).search.pending_clauses@,
            ),
        ensures
            final(self).live(),
            booked(old(self).book(), final(self).book(), 0, 0, 0),
            final(self).same_search(old(self)),
            final(self).search.kernel() == old(self).search.kernel(),
            final(self).search.pending_atom_qhead == old(self).search.pending_atom_qhead,
            final(self).search.pending_atom_triggers == old(self).search.pending_atom_triggers,
            old(self).search.classes.state().same(diseq.lhs.0 as int, diseq.rhs.0 as int)
                ==> final(self).reporting() && has_conflict(final(self).search.pending_clauses@),
            !old(self).search.classes.state().same(diseq.lhs.0 as int, diseq.rhs.0 as int)
                ==> *final(self) == *old(self),
    {
        proof {
            lemma_booked_refl(self.book());
            self.search.lemma_in_range();
            let d = choose|d: int|
                0 <= d < self.search.active_disequalities@.len()
                    && self.search.active_disequalities@[d] == diseq;
            assert(self.search.active_disequalities@[d].lhs.0 < self.search.ctx@.terms.len());
        }
        if self.search.find(diseq.lhs) == self.search.find(diseq.rhs) {
            self.emit_disequality_conflict(diseq);
        }
    }

    /// Emits any conflict found while queueing work for one successful merge.
    fn after_class_merge(&mut self, merge: ClassMerge)
        requires
            old(self).live(),
            clauses_sound(
                old(self).context(),
                old(self).search.lits@,
                old(self).search.pending_clauses@,
            ),
            merge.disequality_conflict matches Some(diseq) ==> old(self).search.active_disequalities@.contains(diseq) && old(self).search.classes.state().same(diseq.lhs.0 as int, diseq.rhs.0 as int),
            merge.disequality_conflict is None ==> old(self).reporting(),
        ensures
            final(self).live(),
            booked(old(self).book(), final(self).book(), 0, 0, 0),
            final(self).same_search(old(self)),
            final(self).search.kernel() == old(self).search.kernel(),
            final(self).search.pending_atom_qhead == old(self).search.pending_atom_qhead,
            final(self).search.pending_atom_triggers == old(self).search.pending_atom_triggers,
            final(self).reporting(),
            merge.disequality_conflict is None ==> *final(self) == *old(self),
    {
        proof {
            lemma_booked_refl(self.book());
        }
        if let Some(diseq) = merge.disequality_conflict {
            self.emit_disequality_conflict(diseq);
        }
    }

    /// Merges two terms that are equal for `reason`, and reports the conflict that this may bring.
    fn merge_terms(&mut self, lhs: TermId, rhs: TermId, reason: MergeReason) -> (merge: ClassMerge)
        requires
            old(self).live(),
            old(self).reporting(),
            lhs.0 < old(self).context().terms.len(),
            rhs.0 < old(self).context().terms.len(),
            !old(self).search.classes.state().same(lhs.0 as int, rhs.0 as int),
            reason_valid(old(self).search.kernel(), old(self).context(), lhs, rhs, reason),
        ensures
            final(self).live(),
            booked(old(self).book(), final(self).book(), 0, 0, 0),
            final(self).same_search(old(self)),
            final(self).reporting(),
            noticed(
                old(self).context().atoms,
                old(self).search.watch(),
                final(self).search.watch(),
            ),
            final(self).search.pending_merges@ == old(self).search.pending_merges@,
            table_entries(final(self).search.signatures) == table_entries(
                old(self).search.signatures,
            ),
            final(self).search.pending_atom_qhead == old(self).search.pending_atom_qhead,
            final(self).search.classes.state().class_count() + 1
                == old(self).search.classes.state().class_count(),
            final(self).search.classes.state().same(lhs.0 as int, rhs.0 as int),
            crate::euf::search_state::appended(
                old(self).search.pending_repairs@,
                final(self).search.pending_repairs@,
            ),
            forall|t: int|
                0 <= t < old(self).context().terms.len() ==> #[trigger] final(self).search.classes.state().root(t) == if old(self).search.classes.state().root(t)
                    == merge.absorbed.0 {
                    merge.survivor.0 as int
                } else {
                    old(self).search.classes.state().root(t)
                },
            forall|p: int, k: int|
                0 <= p < old(self).context().terms.len() && 0 <= k < old(self).context().terms[p].args.len() && old(self).search.classes.state().root(
                    #[trigger] old(self).context().terms[p].args[k],
                ) == merge.absorbed.0 ==> is_appended(
                    old(self).search.pending_repairs@,
                    final(self).search.pending_repairs@,
                    TermId(p as u32),
                ),
    {
        let merge = self.search.union_roots(&self.registry, lhs, rhs, reason);
        proof {
            if !old(self).search.kernel().apart() {
                let d = choose|d: int|
                    0 <= d < old(self).search.kernel().diseqs.len() && old(self).search.kernel().state.same(
                        (#[trigger] old(self).search.kernel().diseqs[d]).lhs.0 as int,
                        old(self).search.kernel().diseqs[d].rhs.0 as int,
                    );
                old(self).search.lemma_in_range();
                let entry = old(self).search.active_disequalities@[d];
                assert(entry.lhs.0 < self.context().terms.len());
                assert(self.search.kernel().diseqs[d] == entry);
                assert(self.search.kernel().state.same(entry.lhs.0 as int, entry.rhs.0 as int));
            }
        }
        let ghost mid = *self;
        self.after_class_merge(merge);
        proof {
            assert(self.search.watch() == mid.search.watch());
            assert(mid.book() == old(self).book());
        }
        merge
    }

    /// Applies one input equality merge.
    fn merge_input(&mut self, input: MergeInput)
        requires
            old(self).live(),
            old(self).reporting(),
            old(self).search.kernel().input_ok(old(self).context(), input),
        ensures
            final(self).live(),
            booked(old(self).book(), final(self).book(), 0, 0, 0),
            final(self).same_search(old(self)),
            final(self).reporting(),
            noticed(
                old(self).context().atoms,
                old(self).search.watch(),
                final(self).search.watch(),
            ),
            final(self).search.pending_merges@ == old(self).search.pending_merges@,
            final(self).search.pending_atom_qhead == old(self).search.pending_atom_qhead,
            final(self).search.classes.state().class_count() <= old(self).search.classes.state().class_count(),
            final(self).search.classes.state().same(input.lhs.0 as int, input.rhs.0 as int),
    {
        proof {
            let ctx = self.context();
            lemma_booked_refl(self.book());
            lemma_noticed_refl(ctx.atoms, self.search.watch());
            assert(ctx.var_atoms[input.reason_lit.var.0 as int] is Some);
            assert(ctx.atoms[ctx.atom(input.reason_lit)].0.0 < ctx.terms.len());
        }
        let lhs_root = self.search.find(input.lhs);
        let rhs_root = self.search.find(input.rhs);
        if lhs_root == rhs_root {
            return;
        }
        self.merge_terms(
            input.lhs,
            input.rhs,
            MergeReason::InputEq { reason_lit: input.reason_lit },
        );
    }

    /// Rechecks one parent application under current child representatives.
    ///
    /// Afterwards its signature is known with an owner in its class, or it is queued once more.
    fn repair_parent_app(&mut self, parent: TermId)
        requires
            old(self).live(),
            old(self).reporting(),
            parent.0 < old(self).context().terms.len(),
        ensures
            final(self).live(),
            booked(
                old(self).book(),
                final(self).book(),
                (old(self).search.classes.state().class_count()
                    - final(self).search.classes.state().class_count()) as nat,
                0,
                0,
            ),
            final(self).same_search(old(self)),
            final(self).reporting(),
            noticed(
                old(self).context().atoms,
                old(self).search.watch(),
                final(self).search.watch(),
            ),
            final(self).search.pending_merges@ == old(self).search.pending_merges@,
            final(self).search.pending_atom_qhead == old(self).search.pending_atom_qhead,
            crate::euf::search_state::appended(
                old(self).search.pending_repairs@,
                final(self).search.pending_repairs@,
            ),
            final(self).search.classes.state().class_count() < old(self).search.classes.state().class_count() || (final(self).search.classes.state().class_count() == old(self).search.classes.state().class_count() && final(self).search.pending_repairs@ == old(self).search.pending_repairs@),
            old(self).context().terms[parent.0 as int].args.len() > 0 ==> final(self).search.kernel().settled(final(self).context(), parent.0 as int) || is_appended(
                old(self).search.pending_repairs@,
                final(self).search.pending_repairs@,
                parent,
            ),
    {
        let ghost ctx = self.context();
        let ghost c0 = self.search.kernel();
        let ghost p = parent.0 as int;
        proof {
            lemma_noticed_refl(ctx.atoms, self.search.watch());
            lemma_booked_refl(self.book());
        }
        let ghost key = c0.signature(ctx, p);
        if self.registry.term_ref(parent).args.len() == 0 {
            return;
        }
        let existing = self.search.find_congruent_parent(&self.registry, parent);
        proof {
            old(self).search.lemma_scratch(&self.search);
        }
        match existing {
            Some(existing) => {
                proof {
                    c0.lemma_entry_current(ctx, p);
                }
                if self.search.find(existing) != self.search.find(parent) {
                    self.note(Event::CongruenceMerge);
                    let ghost s1 = *self;
                    proof {
                        assert(booked(old(self).book(), s1.book(), 1, 0, 0)) by {
                            reveal(booked);
                        }
                        assert(s1.context() == ctx);
                    }
                    let merge = self.merge_terms(
                        existing,
                        parent,
                        MergeReason::Congruence { left_parent: existing, right_parent: parent },
                    );
                    proof {
                        assert(self.reporting());
                        lemma_booked_trans(
                            old(self).book(),
                            s1.book(),
                            self.book(),
                            (1, 0, 0),
                            (0, 0, 0),
                        );
                        let c2 = self.search.kernel();
                        if !is_appended(
                            old(self).search.pending_repairs@,
                            self.search.pending_repairs@,
                            parent,
                        ) {
                            assert forall|k: int| 0 <= k < ctx.terms[p].args.len() implies c2.state.root(
                                #[trigger] ctx.terms[p].args[k],
                            ) == c0.state.root(ctx.terms[p].args[k]) by {
                                let arg = ctx.terms[p].args[k];
                                if c0.state.root(arg) == merge.absorbed.0 {
                                    assert(s1.search.classes.state().root(
                                        s1.context().terms[p].args[k],
                                    ) == merge.absorbed.0);
                                    assert(is_appended(
                                        s1.search.pending_repairs@,
                                        self.search.pending_repairs@,
                                        TermId(p as u32),
                                    ));
                                }
                            }
                            assert(c2.signature(ctx, p) =~= key);
                            assert(c2.settled(ctx, p));
                        }
                    }
                } else {
                    proof {
                        assert(self.search.kernel() == c0);
                        assert(c0.settled(ctx, p));
                        assert(self.reporting());
                    }
                }
            },
            None => {
                let ghost s1 = self.search;
                self.search.insert_current_signature(parent);
                proof {
                    s1.kernel().lemma_insert(ctx, p);
                    lemma_apart_same(c0, self.search.kernel());
                    assert(self.search.kernel() =~= (Core {
                        table: c0.table.insert(key, p as u32),
                        ..c0
                    }));
                    s1.lemma_grows_refl();
                    assert(s1.grows_to(&self.search));
                    s1.lemma_levels_grow(&self.search);
                }
            },
        }
    }

    /// Repairs congruence closure after recent merges.
    fn repair_congruence(&mut self)
        requires
            old(self).live(),
            old(self).reporting(),
        ensures
            final(self).live(),
            booked(
                old(self).book(),
                final(self).book(),
                (old(self).search.classes.state().class_count()
                    - final(self).search.classes.state().class_count()) as nat,
                0,
                0,
            ),
            final(self).same_search(old(self)),
            final(self).reporting(),
            noticed(
                old(self).context().atoms,
                old(self).search.watch(),
                final(self).search.watch(),
            ),
            final(self).search.pending_merges@ == old(self).search.pending_merges@,
            final(self).search.pending_atom_qhead == old(self).search.pending_atom_qhead,
            final(self).search.classes.state().class_count() <= old(self).search.classes.state().class_count(),
            final(self).search.pending_repairs@.len() == 0,
    {
        proof {
            lemma_noticed_refl(self.context().atoms, self.search.watch());
            lemma_booked_refl(self.book());
        }
        while self.search.pending_repairs.len() > 0
            invariant
                self.live(),
                self.same_search(old(self)),
                self.reporting(),
                booked(
                    old(self).book(),
                    self.book(),
                    (old(self).search.classes.state().class_count()
                        - self.search.classes.state().class_count()) as nat,
                    0,
                    0,
                ),
                noticed(
                    old(self).context().atoms,
                    old(self).search.watch(),
                    self.search.watch(),
                ),
                self.search.pending_merges@ == old(self).search.pending_merges@,
                self.search.pending_atom_qhead == old(self).search.pending_atom_qhead,
                self.search.classes.state().class_count() <= old(self).search.classes.state().class_count(),
            decreases self.search.classes.state().class_count(), self.search.pending_repairs@.len(),
        {
            let ghost before = *self;
            let parent = self.search.pending_repairs[0];
            proof {
                assert(self.search.kernel().repairs[0].0 < self.context().terms.len());
            }
            self.repair_parent_app(parent);
            proof {
                let before_list = before.search.pending_repairs@;
                let list = self.search.pending_repairs@;
                assert(list[0] == parent);
                if is_appended(before_list, list, parent) {
                    let x = choose|x: int|
                        before_list.len() <= x < list.len() && #[trigger] list[x] == parent;
                    assert(list[x] == parent);
                }
            }
            let ghost mid = *self;
            self.search.pop_repair();
            proof {
                lemma_booked_trans(
                    old(self).book(),
                    before.book(),
                    self.book(),
                    (
                        (old(self).search.classes.state().class_count()
                            - before.search.classes.state().class_count()) as nat,
                        0,
                        0,
                    ),
                    (
                        (before.search.classes.state().class_count()
                            - self.search.classes.state().class_count()) as nat,
                        0,
                        0,
                    ),
                );
                lemma_noticed_trans(
                    old(self).context().atoms,
                    old(self).search.watch(),
                    before.search.watch(),
                    self.search.watch(),
                );
                lemma_apart_same(mid.search.kernel(), self.search.kernel());
            }
        }
    }

    /// Re-evaluates one registered atom under current equality classes.
    fn evaluate_atom_trigger(&mut self, atom: TheoryAtomId)
        requires
            old(self).live(),
            old(self).reporting(),
            atom.0 < old(self).context().atoms.len(),
        ensures
            final(self).live(),
            booked(old(self).book(), final(self).book(), 0, 0, 0),
            final(self).same_search(old(self)),
            final(self).reporting(),
            final(self).search.kernel() == old(self).search.kernel(),
            final(self).search.pending_atom_qhead == old(self).search.pending_atom_qhead,
            final(self).search.pending_atom_triggers == old(self).search.pending_atom_triggers,
            reconsidered(
                old(self).context(),
                old(self).search.kernel(),
                (Lit { var: old(self).theory_atom_to_var@[atom.0 as int], negated: false }),
                old(self).search.atom_values@[atom.0 as int],
                old(self).search.pending_clauses@,
                final(self).search.pending_clauses@,
            ),
    {
        let ghost ctx = self.context();
        let ghost c = self.search.kernel();
        let ghost before = self.search.pending_clauses@;
        proof {
            lemma_booked_refl(self.book());
        }
        let AtomRef::Eq(lhs, rhs) = self.registry.atom_ref(atom);
        proof {
            self.lemma_context();
            assert(ctx.atoms[atom.0 as int].0.0 < ctx.terms.len());
        }
        let sat_var = self.theory_atom_to_var[atom.index()];
        let lit = Lit::new(sat_var, false);
        proof {
            assert(self.var_to_theory_atom[sat_var.0 as int] == Some(atom));
            assert(ctx.bound(sat_var));
            assert(ctx.atom(lit) == atom.0);
        }
        let equal_now = self.search.find(lhs) == self.search.find(rhs);
        let current_value = self.search.atom_value(atom);
        if equal_now && current_value.is_none() {
            let mut support: Vec<Lit> = Vec::new();
            self.search.explain_equality(&self.registry, lhs, rhs, &mut support);
            let clause = Self::build_theory_clause(
                &support,
                Some(lit),
                TheoryClauseKind::PropagationExplanation,
            );
            proof {
                lemma_propagation_clause(ctx, c, lit, support@, clause.lits@);
            }
            self.push_clause(clause);
            proof {
                assert(self.search.pending_clauses@.drop_last() =~= before);
                assert(supports(ctx, c, lit, support@));
            }
        } else if equal_now && current_value == Some(false) {
            let diseq = DisequalityEntry { lhs, rhs, reason_lit: lit.negate() };
            proof {
                let i = choose|i: int|
                    0 <= i < self.search.lits@.len() && ctx.atom(#[trigger] self.search.lits@[i])
                        == atom.0;
                let l = self.search.lits@[i];
                assert(self.search.atom_values[ctx.atom(l)] == Some(!l.negated));
                assert(l.negated);
                assert(ctx.bound(l.var));
                assert(ctx.var_atoms[l.var.0 as int] == ctx.var_atoms[sat_var.0 as int]);
                assert(l == diseq.reason_lit);
                assert(c.accounted(ctx, c.lits[i]));
                let d = choose|d: int|
                    0 <= d < c.diseqs.len() && (#[trigger] c.diseqs[d]).lhs.0 == ctx.lhs(l)
                        && c.diseqs[d].rhs.0 == ctx.rhs(l);
                assert(c.state.same(c.diseqs[d].lhs.0 as int, c.diseqs[d].rhs.0 as int));
                assert(!c.apart());
                assert(c.lits.contains(l));
            }
            let mut support: Vec<Lit> = Vec::new();
            self.search.explain_conflict(&self.registry, diseq, &mut support);
            let clause = Self::build_theory_clause(
                &support,
                None,
                TheoryClauseKind::ConflictExplanation,
            );
            proof {
                lemma_conflict_from_lit(ctx, c, diseq, support@, clause.lits@);
            }
            self.push_clause(clause);
            proof {
                let premise = support@.drop_last();
                assert(self.search.pending_clauses@.drop_last() =~= before);
                assert(support@ =~= premise.push(lit.spec_negate()));
                assert(supports(ctx, c, lit, premise));
            }
        }
    }

    /// Processes every affected atom trigger, up to the first conflict.
    #[verifier::spinoff_prover]
    #[verifier::rlimit(40)]
    fn process_pending_atom_triggers(&mut self)
        requires
            old(self).live(),
            old(self).reporting(),
        ensures
            final(self).live(),
            booked(old(self).book(), final(self).book(), 0, 0, 0),
            final(self).same_search(old(self)),
            final(self).reporting(),
            final(self).search.kernel() == old(self).search.kernel(),
            final(self).search.pending_atom_triggers == old(self).search.pending_atom_triggers,
            old(self).search.pending_atom_qhead <= final(self).search.pending_atom_qhead,
            forall|k: int|
                old(self).search.pending_atom_qhead <= k < final(self).search.pending_atom_qhead
                    ==> final(self).answered(
                    (#[trigger] final(self).search.pending_atom_triggers@[k]).0 as int,
                ),
            final(self).search.kernel().apart() ==> final(self).search.pending_atom_qhead == final(self).search.pending_atom_triggers.len(),
    {
        proof {
            lemma_booked_refl(self.book());
        }
        while self.search.pending_atom_qhead < self.search.pending_atom_triggers.len()
            invariant
                self.live(),
                booked(old(self).book(), self.book(), 0, 0, 0),
                self.same_search(old(self)),
                self.reporting(),
                self.search.kernel() == old(self).search.kernel(),
                self.search.pending_atom_triggers == old(self).search.pending_atom_triggers,
                old(self).search.pending_atom_qhead <= self.search.pending_atom_qhead,
                self.search.pending_atom_qhead <= self.search.pending_atom_triggers.len(),
                forall|k: int|
                    old(self).search.pending_atom_qhead <= k < self.search.pending_atom_qhead
                        ==> self.answered(
                        (#[trigger] self.search.pending_atom_triggers@[k]).0 as int,
                    ),
            decreases self.search.pending_atom_triggers.len() - self.search.pending_atom_qhead,
        {
            let ghost before = *self;
            let atom = self.search.pending_atom_triggers[self.search.pending_atom_qhead];
            self.search.pending_atom_qhead = self.search.pending_atom_qhead + 1;
            self.search.atom_is_enqueued.set(atom.index(), false);
            proof {
                assert(queue_ok(
                    self.search.atom_is_enqueued@,
                    self.search.pending_atom_triggers@,
                    self.search.pending_atom_qhead as int,
                )) by {
                    reveal(queue_ok);
                    let triggers = self.search.pending_atom_triggers@;
                    assert forall|a: int|
                        0 <= a < self.search.atom_is_enqueued.len()
                            && #[trigger] self.search.atom_is_enqueued@[a] implies waiting(
                        triggers,
                        self.search.pending_atom_qhead as int,
                        a,
                    ) by {
                        assert(before.search.atom_is_enqueued@[a]);
                        let k = choose|k: int|
                            before.search.pending_atom_qhead <= k < triggers.len() && (
                            #[trigger] triggers[k]).0 == a;
                        assert(triggers[k].0 == a);
                    }
                }
                before.search.lemma_grows_refl();
                assert(before.search.grows_to(&self.search));
                before.search.lemma_levels_grow(&self.search);
            }
            let ghost mid = *self;
            self.evaluate_atom_trigger(atom);
            proof {
                lemma_booked_trans(
                    old(self).book(),
                    before.book(),
                    self.book(),
                    (0, 0, 0),
                    (0, 0, 0),
                );
                let ctx = self.context();
                let c = self.search.kernel();
                let clauses = self.search.pending_clauses@;
                self.lemma_positive(atom.0 as int);
                assert forall|k: int|
                    old(self).search.pending_atom_qhead <= k
                        < self.search.pending_atom_qhead implies self.answered(
                    (#[trigger] self.search.pending_atom_triggers@[k]).0 as int,
                ) by {
                    let a = self.search.pending_atom_triggers@[k].0 as int;
                    if k < before.search.pending_atom_qhead {
                        assert(before.answered(
                            before.search.pending_atom_triggers@[k].0 as int,
                        ));
                        if joined(ctx.atoms, c.state, a) && self.search.atom_values@[a] is None {
                            lemma_announced_more(
                                ctx,
                                c,
                                self.positive(a),
                                before.search.pending_clauses@,
                                clauses,
                            );
                        }
                    } else if joined(ctx.atoms, c.state, a) && self.search.atom_values@[a]
                        is None {
                        assert(propagates(ctx, c, self.positive(a), clauses.last()));
                        assert(clauses[clauses.len() - 1] == clauses.last());
                    }
                }
            }
            if self.has_pending_conflict() {
                return;
            }
        }
    }

    /// Saturates the current congruence state, up to the first conflict.
    #[verifier::rlimit(100)]
    #[verifier::spinoff_prover]
    fn saturate(&mut self)
        requires
            old(self).live(),
            old(self).reporting(),
            old(self).search.pending_repairs@.len() == 0,
        ensures
            final(self).live(),
            final(self).search.classes.state().class_count()
                <= old(self).search.classes.state().class_count(),
            exists|m: nat|
                m <= old(self).search.classes.state().class_count()
                    - final(self).search.classes.state().class_count() && #[trigger] booked(
                    old(self).book(),
                    final(self).book(),
                    m,
                    0,
                    0,
                ),
            final(self).same_search(old(self)),
            final(self).reporting(),
            final(self).search.kernel().apart() ==> forall|a: int|
                0 <= a < old(self).context().atoms.len() && !joined(
                    old(self).context().atoms,
                    old(self).search.classes.state(),
                    a,
                ) && joined(old(self).context().atoms, final(self).search.classes.state(), a)
                    ==> #[trigger] final(self).answered(a),
            old(self).search.pending_atom_qhead <= final(self).search.pending_atom_qhead,
            final(self).search.kernel().apart() ==> final(self).search.kernel().idle() && final(self).search.pending_atom_qhead == final(self).search.pending_atom_triggers.len(),
    {
        let ghost mut merges: nat = 0;
        proof {
            lemma_booked_refl(self.book());
            lemma_noticed_refl(self.context().atoms, self.search.watch());
        }
        while self.search.pending_merges.len() > 0
            invariant
                self.live(),
                merges <= old(self).search.classes.state().class_count()
                    - self.search.classes.state().class_count(),
                booked(old(self).book(), self.book(), merges, 0, 0),
                self.same_search(old(self)),
                self.reporting(),
                noticed(
                    old(self).context().atoms,
                    old(self).search.watch(),
                    self.search.watch(),
                ),
                self.search.pending_repairs@.len() == 0,
                old(self).search.pending_atom_qhead <= self.search.pending_atom_qhead,
            decreases self.search.pending_merges@.len(),
        {
            let ghost before = *self;
            let input = self.search.pending_merges[0];
            proof {
                assert(self.search.kernel().input_ok(
                    self.context(),
                    self.search.kernel().merges[0],
                ));
            }
            self.merge_input(input);
            let ghost mid = *self;
            self.search.pop_merge();
            proof {
                lemma_apart_same(mid.search.kernel(), self.search.kernel());
                lemma_booked_trans(
                    old(self).book(),
                    before.book(),
                    self.book(),
                    (merges, 0, 0),
                    (0, 0, 0),
                );
                lemma_noticed_trans(
                    old(self).context().atoms,
                    old(self).search.watch(),
                    before.search.watch(),
                    self.search.watch(),
                );
            }
            if self.has_pending_conflict() {
                return;
            }
            let ghost popped = *self;
            self.repair_congruence();
            proof {
                let more = (popped.search.classes.state().class_count()
                    - self.search.classes.state().class_count()) as nat;
                lemma_booked_trans(
                    old(self).book(),
                    popped.book(),
                    self.book(),
                    (merges, 0, 0),
                    (more, 0, 0),
                );
                merges = merges + more;
                lemma_noticed_trans(
                    old(self).context().atoms,
                    old(self).search.watch(),
                    popped.search.watch(),
                    self.search.watch(),
                );
            }
            if self.has_pending_conflict() {
                return;
            }
        }
        let ghost merged = *self;
        self.process_pending_atom_triggers();
        proof {
            lemma_booked_trans(
                old(self).book(),
                merged.book(),
                self.book(),
                (merges, 0, 0),
                (0, 0, 0),
            );
            let atoms = old(self).context().atoms;
            if self.search.kernel().apart() {
                assert forall|a: int|
                    0 <= a < atoms.len() && !joined(atoms, old(self).search.classes.state(), a)
                        && joined(
                        atoms,
                        self.search.classes.state(),
                        a,
                    ) implies #[trigger] self.answered(a) by {
                    let triggers = merged.search.pending_atom_triggers@;
                    let qhead = merged.search.pending_atom_qhead as int;
                    assert(merged.search.kernel() == self.search.kernel());
                    assert(waiting(triggers, qhead, a)) by {
                        reveal(noticed);
                        let watch = merged.search.watch();
                        assert(!joined(atoms, old(self).search.watch().0, a));
                        assert(joined(atoms, watch.0, a));
                        assert(waiting(watch.1, watch.2, a));
                    }
                    let k = choose|k: int|
                        qhead <= k < triggers.len() && (#[trigger] triggers[k]).0 == a;
                    assert(self.answered(self.search.pending_atom_triggers@[k].0 as int));
                }
            }
        }
    }

    /// Processes all theory assignments currently buffered.
    fn process_pending_assignments(&mut self)
        requires
            old(self).live(),
            old(self).reporting(),
            old(self).search.pending_repairs@.len() == 0,
            trail_ok(
                old(self).context(),
                old(self).search.lits@ + old(self).search.pending_assignments@,
            ),
        ensures
            final(self).live(),
            booked(
                old(self).book(),
                final(self).book(),
                0,
                literals_of(old(self).search.pending_assignments@, false),
                literals_of(old(self).search.pending_assignments@, true),
            ),
            final(self).reporting(),
            final(self).search.pending_repairs@.len() == 0,
            final(self).registry == old(self).registry,
            final(self).theory_atom_to_var == old(self).theory_atom_to_var,
            final(self).var_to_theory_atom == old(self).var_to_theory_atom,
            final(self).search.level_markers == old(self).search.level_markers,
            final(self).search.watch() == old(self).search.watch(),
            final(self).search.pending_assignments@.len() == 0,
            final(self).search.lits@ == old(self).search.lits@ + old(self).search.pending_assignments@,
    {
        let ghost trail = self.search.lits@ + self.search.pending_assignments@;
        let ghost ctx = self.context();
        let ghost first = self.search.pending_assignments@;
        let ghost mut equalities: nat = 0;
        let ghost mut disequalities: nat = 0;
        proof {
            lemma_booked_refl(self.book());
        }
        loop
            invariant
                self.live(),
                first == old(self).search.pending_assignments@,
                booked(old(self).book(), self.book(), 0, equalities, disequalities),
                equalities + literals_of(self.search.pending_assignments@, false) == literals_of(
                    first,
                    false,
                ),
                disequalities + literals_of(self.search.pending_assignments@, true) == literals_of(
                    first,
                    true,
                ),
                self.reporting(),
                ctx == self.context(),
                self.search.pending_repairs@.len() == 0,
                self.registry == old(self).registry,
                self.theory_atom_to_var == old(self).theory_atom_to_var,
                self.var_to_theory_atom == old(self).var_to_theory_atom,
                self.search.level_markers == old(self).search.level_markers,
                self.search.watch() == old(self).search.watch(),
                trail_ok(ctx, trail),
                trail == old(self).search.lits@ + old(self).search.pending_assignments@,
                self.search.lits@ + self.search.pending_assignments@ == trail,
            decreases self.search.pending_assignments@.len(),
        {
            let ghost before = *self;
            let lit = match self.search.pop_pending_assignment() {
                Some(lit) => lit,
                None => {
                    proof {
                        assert(self.search.lits@ =~= trail);
                        before.search.lemma_scratch(&self.search);
                    }
                    return;
                },
            };
            let ghost n = self.search.lits@.len() as int;
            proof {
                before.search.lemma_scratch(&self.search);
                assert(trail[n] == lit);
                assert(ctx.bound(trail[n].var));
                assert forall|i: int| 0 <= i < self.search.lits@.len() implies (
                #[trigger] self.search.lits@[i]).var != lit.var by {
                    assert(trail[i] == self.search.lits@[i]);
                }
                assert(self.var_to_theory_atom[lit.var.0 as int] is Some);
            }
            proof {
                assert(booked(old(self).book(), self.book(), 0, equalities, disequalities));
            }
            if lit.is_negated() {
                self.note(Event::InputDisequality);
            } else {
                self.note(Event::InputEquality);
            }
            let ghost s1 = *self;
            proof {
                let e: nat = if lit.negated {
                    0
                } else {
                    1
                };
                assert(booked(before.book(), s1.book(), 0, e, (1 - e) as nat)) by {
                    reveal(booked);
                }
                lemma_booked_trans(
                    old(self).book(),
                    before.book(),
                    s1.book(),
                    (0, equalities, disequalities),
                    (0, e, (1 - e) as nat),
                );
                equalities = equalities + e;
                disequalities = (disequalities + (1 - e)) as nat;
            }
            if let Some(atom) = self.theory_atom_for_var(lit.var()) {
                let AtomRef::Eq(lhs, rhs) = self.registry.atom_ref(atom);
                let activated = self.search.assign_literal(lit, atom, lhs, rhs);
                let ghost s2 = *self;
                proof {
                    assert(self.search.lits@ + self.search.pending_assignments@ =~= trail);
                    lemma_clauses_more_lits(
                        ctx,
                        s1.search.lits@,
                        s2.search.lits@,
                        s2.search.pending_clauses@,
                    );
                }
                proof {
                    assert(s2.book() == s1.book());
                }
                match activated {
                    Some(diseq) => {
                        proof {
                            let d = s1.search.active_disequalities@.len() as int;
                            assert(self.search.active_disequalities@[d] == diseq);
                            lemma_apart_push(s1.search.kernel(), s2.search.kernel(), diseq);
                        }
                        self.check_disequality(diseq);
                        proof {
                            lemma_booked_trans(
                                old(self).book(),
                                s2.book(),
                                self.book(),
                                (0, equalities, disequalities),
                                (0, 0, 0),
                            );
                        }
                    },
                    None => {
                        proof {
                            lemma_apart_same(s1.search.kernel(), s2.search.kernel());
                        }
                    },
                }
            }
        }
    }
}

/// The assignment that gives every bound variable the value of its atom under `m`.
spec fn assignment_of(ctx: Context, m: Interp) -> Assignment {
    |v: int|
        0 <= v < ctx.var_atoms.len() && ctx.equal_in(m, Lit { var: Var(v as u32), negated: false })
}

impl EufTheory {
    /// A processed trail without conflict is true under an assignment that makes no other atoms
    /// true than those whose endpoints are known to be equal.
    proof fn lemma_trail_model(&self) -> (a: Assignment)
        requires
            self.live(),
            self.search.kernel().apart(),
            self.search.kernel().idle(),
            forall|i: int|
                0 <= i < self.search.lits@.len() ==> self.context().bound(
                    (#[trigger] self.search.lits@[i]).var,
                ),
        ensures
            constraints_of(self.context()).admits(a),
            lits_true(a, self.search.lits@),
            forall|var: Var| #[trigger]
                self.context().bound(var) && a(var.0 as int) ==> self.equated(
                    self.context().atom(Lit { var, negated: false }),
                ),
    {
        let ctx = self.context();
        let c = self.search.kernel();
        let m = c.lemma_model(ctx);
        let a = assignment_of(ctx, m);
        assert forall|var: Var| #[trigger] ctx.bound(var) implies a(var.0 as int) == ctx.equal_in(
            m,
            Lit { var, negated: false },
        ) by {
            assert(Var(var.0 as int as u32) == var);
        }
        assert(interp_matches(ctx, m, a));
        assert(constraints_of(ctx).admits(a));
        assert forall|i: int| 0 <= i < self.search.lits@.len() implies lit_true(
            a,
            #[trigger] self.search.lits@[i],
        ) by {
            let lit = c.lits[i];
            assert(self.search.lits@[i] == lit);
            assert(ctx.lit_holds(m, lit));
            assert(ctx.bound(self.search.lits@[i].var));
            assert(a(lit.var.0 as int) == ctx.equal_in(m, Lit { var: lit.var, negated: false }));
        }
        assert forall|var: Var| #[trigger]
            ctx.bound(var) && a(var.0 as int) implies self.equated(
            ctx.atom(Lit { var, negated: false }),
        ) by {
            let lit = Lit { var, negated: false };
            self.lemma_context();
            assert(ctx.var_atoms[var.0 as int] is Some);
            assert(0 <= ctx.atom(lit) < ctx.atoms.len());
            assert(ctx.atoms[ctx.atom(lit)].0.0 < ctx.terms.len());
        }
        a
    }

    /// Every atom that follows from the trail is known to be true: after all assignments have been
    /// processed without conflict, its endpoints are known to be equal.
    pub proof fn lemma_implied_equated(&self, var: Var)
        requires
            self.searching(),
            self.drained(),
            !self.conflicted(),
            self.context().bound(var),
            forall|a: Assignment| #[trigger]
                self.constraints().admits(a) && lits_true(a, self.trail()) ==> a(var.0 as int),
        ensures
            self.equated(self.context().atom(Lit { var, negated: false })),
    {
        assert(self.trail() =~= self.search.lits@);
        assert forall|i: int| 0 <= i < self.search.lits@.len() implies self.context().bound(
            (#[trigger] self.search.lits@[i]).var,
        ) by {
            assert(self.trail()[i] == self.search.lits@[i]);
        }
        let a = self.lemma_trail_model();
        assert(self.constraints().admits(a));
    }

    /// Processes the buffered assignments, saturates, and hands out the clauses that follow.
    fn synchronize(&mut self, out: &mut Vec<TheoryClause>)
        requires
            old(self).searching(),
            !old(self).conflicted(),
        ensures
            final(self).searching(),
            final(self).setting() == old(self).setting(),
            final(self).context() == old(self).context(),
            final(self).trail() == old(self).trail(),
            final(self).levels() == old(self).levels(),
            final(self).drained(),
            appended_clauses(
                constraints_of(old(self).context()),
                old(self).trail(),
                old(out)@,
                final(out)@,
            ),
            final(self).tallied(old(self), final(out)@.skip(old(out)@.len() as int)),
            !final(self).conflicted() ==> final(self).news_of(
                old(self),
                final(out)@.skip(old(out)@.len() as int),
            ),
            final(self).conflicted() == has_conflict(final(out)@.skip(old(out)@.len() as int)),
            !final(self).conflicted() ==> exists|a: Assignment| #[trigger]
                constraints_of(old(self).context()).admits(a) && lits_true(a, old(self).trail()),
    {
        let ghost before = out@;
        self.process_pending_assignments();
        let ghost looked = *self;
        self.saturate();
        let ghost mid = *self;
        proof {
            let m = choose|m: nat|
                m <= looked.class_count() - mid.class_count() && #[trigger] booked(
                    looked.book(),
                    mid.book(),
                    m,
                    0,
                    0,
                );
            let e = literals_of(old(self).unprocessed(), false);
            let d = literals_of(old(self).unprocessed(), true);
            lemma_booked_trans(old(self).book(), looked.book(), mid.book(), (0, e, d), (m, 0, 0));
            reveal(booked);
            assert(mid.counters().congruence_merges == counted(
                old(self).counters().congruence_merges,
                m as int,
            ));
            assert(mid.tallied(old(self), mid.search.pending_clauses@));
        }
        let ghost news = self.search.pending_clauses@;
        out.append(&mut self.search.pending_clauses);
        proof {
            let ctx = self.context();
            mid.search.lemma_scratch(&self.search);
            assert(self.class_count() == mid.class_count());
            assert(self.search.lits@ + self.search.pending_assignments@ =~= self.search.lits@);
            assert(out@ =~= before + news);
            assert(out@.take(before.len() as int) =~= before);
            assert(out@.skip(before.len() as int) =~= news);
            assert forall|i: int| before.len() <= i < out@.len() implies theory_valid(
                constraints_of(ctx),
                (#[trigger] out@[i]).lits@,
            ) && (out@[i].kind == TheoryClauseKind::ConflictExplanation ==> refuted_by(
                out@[i].lits@,
                self.trail(),
            )) by {
                assert(out@[i] == news[i - before.len()]);
            }
            if self.search.kernel().apart() {
                assert forall|a: int|
                    0 <= a < ctx.atoms.len() && !old(self).equated(a) && self.equated(a)
                        && #[trigger] self.unassigned(a) implies exists|j: int|
                    0 <= j < news.len() && self.announces(a, #[trigger] news[j]) by {
                    self.lemma_positive(a);
                    if self.search.atom_values@[a] is Some {
                        let i = choose|i: int|
                            0 <= i < self.search.lits@.len() && ctx.atom(
                                #[trigger] self.search.lits@[i],
                            ) == a;
                        let l = self.search.lits@[i];
                        assert(self.trail()[i] == l);
                        assert(ctx.bound(l.var));
                        assert(ctx.var_atoms[l.var.0 as int] == ctx.var_atoms[self.positive(
                            a,
                        ).var.0 as int]);
                    }
                    assert(mid.answered(a));
                }
                let a = self.lemma_trail_model();
            }
        }
    }
}

impl Theory for EufTheory {
    type Setting = (RegistryView, Seq<Option<TheoryAtomId>>);

    open spec fn setting(&self) -> (RegistryView, Seq<Option<TheoryAtomId>>) {
        (self.interned(), self.bindings())
    }

    open spec fn inv(&self) -> bool {
        self.wf()
    }

    closed spec fn searching(&self) -> bool {
        &&& self.live()
        &&& self.search.levels_settled()
        &&& self.search.pending_clauses@.len() == 0
        &&& self.search.kernel().apart() ==> self.search.kernel().idle()
            && self.search.pending_atom_qhead == self.search.pending_atom_triggers.len()
        &&& trail_ok(self.context(), self.search.lits@ + self.search.pending_assignments@)
        &&& forall|i: int|
            0 <= i < self.search.level_markers@.len() ==> (
            #[trigger] self.search.level_markers@[i]).pending_atom_triggers_len
                <= self.search.pending_atom_qhead
    }

    proof fn lemma_searching(&self) {
    }

    open spec fn constraints(&self) -> Constraints {
        constraints_of(self.context())
    }

    closed spec fn trail(&self) -> Seq<Lit> {
        self.search.lits@ + self.search.pending_assignments@
    }

    closed spec fn levels(&self) -> Seq<nat> {
        self.search.level_markers@.map_values(|m: LevelMarker| m.atom_trail_len as nat)
    }

    closed spec fn drained(&self) -> bool {
        self.search.pending_assignments@.len() == 0
    }

    closed spec fn conflicted(&self) -> bool {
        !self.search.kernel().apart()
    }

    proof fn lemma_admits_bound(&self, a: Assignment, b: Assignment) {
        let ctx = self.context();
        if accepts(ctx, a) {
            let m = choose|m: Interp| interp_matches(ctx, m, a);
            assert(interp_matches(ctx, m, b)) by {
                assert forall|var: Var| #[trigger] ctx.bound(var) implies b(var.0 as int)
                    == ctx.equal_in(m, Lit { var, negated: false }) by {
                    assert(self.constraints().binds(var));
                }
            }
        }
        if accepts(ctx, b) {
            let m = choose|m: Interp| interp_matches(ctx, m, b);
            assert(interp_matches(ctx, m, a)) by {
                assert forall|var: Var| #[trigger] ctx.bound(var) implies a(var.0 as int)
                    == ctx.equal_in(m, Lit { var, negated: false }) by {
                    assert(self.constraints().binds(var));
                }
            }
        }
    }

    fn notify_search_start(&mut self)
        ensures
            final(self).counters() == old(self).counters(),
    {
        proof {
            self.lemma_context();
        }
        let ghost ctx = self.context();
        self.search.reset_for_registry(&self.registry, Ghost(ctx));
        proof {
            assert(self.context() == ctx);
            assert(self.trail() =~= Seq::<Lit>::empty());
            assert(self.levels() =~= Seq::<nat>::empty());
        }
    }

    fn notify_new_level(&mut self)
        ensures
            final(self).counters() == old(self).counters(),
    {
        self.search.push_level();
        proof {
            let old_markers = old(self).search.level_markers@;
            let markers = self.search.level_markers@;
            assert(self.context() == old(self).context());
            assert forall|i: int| 0 <= i < markers.len() implies (#[trigger] markers[i]).settled@ by {
                if i < old_markers.len() {
                    assert(markers.drop_last()[i] == markers[i]);
                }
            }
            assert forall|i: int| 0 <= i < markers.len() implies (
            #[trigger] markers[i]).pending_atom_triggers_len <= self.search.pending_atom_qhead by {
                if i < old_markers.len() {
                    assert(markers.drop_last()[i] == markers[i]);
                    assert(old_markers[i].pending_atom_triggers_len
                        <= old(self).search.pending_atom_qhead);
                } else {
                    assert(self.search.level_ok(i));
                }
            }
            assert forall|i: int| 0 <= i < old_markers.len() implies markers[i]
                == old_markers[i] by {
                assert(markers.drop_last()[i] == markers[i]);
            }
            assert(self.trail() == old(self).trail());
            assert(self.trail() =~= self.search.lits@);
            assert(self.levels() =~= old(self).levels().push(old(self).trail().len()));
        }
    }

    fn notify_assignment(&mut self, lit: Lit)
        ensures
            final(self).counters() == old(self).counters(),
    {
        if self.theory_atom_for_var(lit.var()).is_some() {
            self.search.enqueue_pending_assignment(lit);
            proof {
                old(self).search.lemma_scratch(&self.search);
                let before = old(self).trail();
                assert(self.trail() =~= before.push(lit));
                assert forall|i: int, j: int|
                    0 <= i < self.trail().len() && 0 <= j < self.trail().len() && (
                    #[trigger] self.trail()[i]).var == (#[trigger] self.trail()[j]).var implies i
                    == j by {
                    if i < before.len() {
                        assert(self.trail()[i] == before[i]);
                    }
                    if j < before.len() {
                        assert(self.trail()[j] == before[j]);
                    }
                }
                assert forall|i: int| 0 <= i < self.trail().len() implies self.context().bound(
                    (#[trigger] self.trail()[i]).var,
                ) by {
                    if i < before.len() {
                        assert(old(self).context().bound(before[i].var));
                    }
                }
            }
        }
    }

    fn notify_backtrack(&mut self, level: usize)
        ensures
            final(self).counters() == old(self).counters(),
    {
        proof {
            let n = old(self).search.level_markers@.len();
            assert(old(self).search.level_markers@[level as int].pending_atom_triggers_len
                <= old(self).search.pending_atom_qhead);
        }
        proof {
            self.search.lemma_rollbackable();
        }
        self.search.pop_levels(level);
        proof {
            let markers0 = old(self).search.level_markers@;
            let m = markers0[level as int];
            assert(self.context() == old(self).context());
            assert(old(self).trail() =~= old(self).search.lits@);
            assert(self.trail() =~= self.search.lits@);
            assert(self.levels() =~= old(self).levels().take(level as int));
            assert(old(self).levels()[level as int] == m.atom_trail_len);
            assert(self.trail() =~= old(self).trail().take(m.atom_trail_len as int));
            assert(old(self).search.level_ok(level as int));
            assert forall|i: int| 0 <= i < self.search.level_markers@.len() implies (
            #[trigger] self.search.level_markers@[i]).pending_atom_triggers_len
                <= self.search.pending_atom_qhead by {
                assert(self.search.level_markers@[i] == markers0[i]);
                assert(self.search.level_ok(i));
            }
            assert forall|i: int, j: int|
                0 <= i < self.trail().len() && 0 <= j < self.trail().len() && (
                #[trigger] self.trail()[i]).var == (#[trigger] self.trail()[j]).var implies i
                == j by {
                assert(self.trail()[i] == old(self).trail()[i]);
                assert(self.trail()[j] == old(self).trail()[j]);
            }
            assert forall|i: int| 0 <= i < self.trail().len() implies self.context().bound(
                (#[trigger] self.trail()[i]).var,
            ) by {
                assert(self.trail()[i] == old(self).trail()[i]);
                assert(old(self).context().bound(old(self).trail()[i].var));
            }
        }
    }

    fn drain_clauses(&mut self, out: &mut Vec<TheoryClause>)
        ensures
            final(self).tallied(old(self), final(out)@.skip(old(out)@.len() as int)),
            !final(self).conflicted() ==> final(self).news_of(
                old(self),
                final(out)@.skip(old(out)@.len() as int),
            ),
    {
        self.synchronize(out);
    }

    fn final_check(&mut self, out: &mut Vec<TheoryClause>)
        ensures
            final(self).tallied(old(self), final(out)@.skip(old(out)@.len() as int)),
            !final(self).conflicted() ==> final(self).news_of(
                old(self),
                final(out)@.skip(old(out)@.len() as int),
            ),
    {
        self.synchronize(out);
        proof {
            if !self.conflicted() {
                let a = choose|a: Assignment| #[trigger]
                    constraints_of(old(self).context()).admits(a) && lits_true(
                        a,
                        old(self).trail(),
                    );
                assert(old(self).constraints().admits(a));
            }
        }
    }
}

/// Literals of different bound variables.
pub open spec fn trail_ok(ctx: Context, trail: Seq<Lit>) -> bool {
    &&& distinct_vars(trail)
    &&& forall|i: int| 0 <= i < trail.len() ==> ctx.bound((#[trigger] trail[i]).var)
}

proof fn lemma_apart_same(a: Core, b: Core)
    requires
        a.state == b.state,
        a.diseqs == b.diseqs,
    ensures
        a.apart() == b.apart(),
{
}

proof fn lemma_apart_push(a: Core, b: Core, diseq: DisequalityEntry)
    requires
        a.state == b.state,
        b.diseqs == a.diseqs.push(diseq),
    ensures
        b.apart() == (a.apart() && !a.state.same(diseq.lhs.0 as int, diseq.rhs.0 as int)),
{
    let n = a.diseqs.len() as int;
    assert(b.diseqs[n] == diseq);
    if b.apart() {
        assert(!b.state.same(b.diseqs[n].lhs.0 as int, b.diseqs[n].rhs.0 as int));
        assert forall|d: int| 0 <= d < n implies !a.state.same(
            (#[trigger] a.diseqs[d]).lhs.0 as int,
            a.diseqs[d].rhs.0 as int,
        ) by {
            assert(b.diseqs[d] == a.diseqs[d]);
        }
    }
}

proof fn lemma_clauses_more_lits(
    ctx: Context,
    before: Seq<Lit>,
    after: Seq<Lit>,
    clauses: Seq<TheoryClause>,
)
    requires
        clauses_sound(ctx, before, clauses),
        before.len() <= after.len(),
        forall|i: int| 0 <= i < before.len() ==> after[i] == before[i],
    ensures
        clauses_sound(ctx, after, clauses),
{
    assert forall|i: int|
        0 <= i < clauses.len() && (#[trigger] clauses[i]).kind
            == TheoryClauseKind::ConflictExplanation implies refuted_by(
        clauses[i].lits@,
        after,
    ) by {
        let c = clauses[i].lits@;
        assert forall|k: int| 0 <= k < c.len() implies after.contains(
            (#[trigger] c[k]).spec_negate(),
        ) by {
            assert(before.contains(c[k].spec_negate()));
            let j = choose|j: int| 0 <= j < before.len() && before[j] == c[k].spec_negate();
            assert(after[j] == c[k].spec_negate());
        }
    }
}

/// If all premises are true under an accepted assignment, so are the equalities behind them.
proof fn lemma_premises_hold(
    ctx: Context,
    c: Core,
    m: Interp,
    a: Assignment,
    support: Seq<Lit>,
)
    requires
        premises(c, ctx, support),
        interp_matches(ctx, m, a),
        forall|i: int| 0 <= i < support.len() ==> lit_true(a, #[trigger] support[i]),
    ensures
        forall|i: int| 0 <= i < support.len() ==> #[trigger] ctx.equal_in(m, support[i]),
{
    assert forall|i: int| 0 <= i < support.len() implies #[trigger] ctx.equal_in(m, support[i]) by {
        let lit = support[i];
        assert(lit_true(a, lit));
        assert(ctx.bound(lit.var));
        assert(lit == (Lit { var: lit.var, negated: false }));
    }
}

proof fn lemma_conflict_from_lit(
    ctx: Context,
    c: Core,
    diseq: DisequalityEntry,
    explanation: Seq<Lit>,
    clause: Seq<Lit>,
)
    requires
        c.lits.contains(diseq.reason_lit),
        ctx.bound(diseq.reason_lit.var),
        diseq.reason_lit.negated,
        ctx.lhs(diseq.reason_lit) == diseq.lhs.0,
        ctx.rhs(diseq.reason_lit) == diseq.rhs.0,
        explanation.len() >= 1,
        explanation.last() == diseq.reason_lit,
        premises(c, ctx, explanation.drop_last()),
        implies_equal(ctx, explanation.drop_last(), diseq.lhs.0 as int, diseq.rhs.0 as int),
        clause == clause_of(explanation, None),
    ensures
        theory_valid(constraints_of(ctx), clause),
        refuted_by(clause, c.lits),
{
    let support = explanation.drop_last();
    let n = support.len() as int;
    assert forall|i: int| 0 <= i < explanation.len() implies #[trigger] clause[i]
        == explanation[i].spec_negate() by {}
    assert forall|a: Assignment| #[trigger] constraints_of(ctx).admits(a) implies clause_true(
        a,
        clause,
    ) by {
        assert(accepts(ctx, a));
        let m = choose|m: Interp| interp_matches(ctx, m, a);
        if !clause_true(a, clause) {
            assert forall|i: int| 0 <= i < support.len() implies lit_true(a, #[trigger] support[i]) by {
                assert(support[i] == explanation[i]);
                assert(!lit_true(a, clause[i]));
            }
            lemma_premises_hold(ctx, c, m, a, support);
            assert(value(ctx.terms, m, diseq.lhs.0 as int) == value(
                ctx.terms,
                m,
                diseq.rhs.0 as int,
            ));
            assert(!lit_true(a, clause[n]));
            assert(clause[n] == diseq.reason_lit.spec_negate());
            assert(ctx.bound(diseq.reason_lit.var));
            assert(a(diseq.reason_lit.var.0 as int) == ctx.equal_in(
                m,
                Lit { var: diseq.reason_lit.var, negated: false },
            ));
        }
    }
    assert forall|i: int| 0 <= i < clause.len() implies c.lits.contains(
        (#[trigger] clause[i]).spec_negate(),
    ) by {
        assert(clause[i].spec_negate() == explanation[i]);
        if i < n {
            assert(explanation[i] == support[i]);
        }
    }
}

proof fn lemma_conflict_clause(
    ctx: Context,
    c: Core,
    diseq: DisequalityEntry,
    explanation: Seq<Lit>,
    clause: Seq<Lit>,
)
    requires
        c.ok(ctx),
        c.diseqs.contains(diseq),
        explanation.len() >= 1,
        explanation.last() == diseq.reason_lit,
        premises(c, ctx, explanation.drop_last()),
        implies_equal(ctx, explanation.drop_last(), diseq.lhs.0 as int, diseq.rhs.0 as int),
        clause == clause_of(explanation, None),
    ensures
        theory_valid(constraints_of(ctx), clause),
        refuted_by(clause, c.lits),
{
    let d = choose|d: int| 0 <= d < c.diseqs.len() && c.diseqs[d] == diseq;
    assert(c.asserted(ctx, d));
    lemma_conflict_from_lit(ctx, c, diseq, explanation, clause);
}

proof fn lemma_propagation_clause(
    ctx: Context,
    c: Core,
    lit: Lit,
    support: Seq<Lit>,
    clause: Seq<Lit>,
)
    requires
        ctx.bound(lit.var),
        !lit.negated,
        premises(c, ctx, support),
        implies_equal(ctx, support, ctx.lhs(lit), ctx.rhs(lit)),
        clause == clause_of(support, Some(lit)),
    ensures
        theory_valid(constraints_of(ctx), clause),
{
    let n = support.len() as int;
    assert forall|i: int| 0 <= i < n implies #[trigger] clause[i] == support[i].spec_negate() by {}
    assert(clause[n] == lit);
    assert forall|a: Assignment| #[trigger] constraints_of(ctx).admits(a) implies clause_true(
        a,
        clause,
    ) by {
        assert(accepts(ctx, a));
        let m = choose|m: Interp| interp_matches(ctx, m, a);
        if !clause_true(a, clause) {
            assert forall|i: int| 0 <= i < support.len() implies lit_true(a, #[trigger] support[i]) by {
                assert(!lit_true(a, clause[i]));
            }
            lemma_premises_hold(ctx, c, m, a, support);
            assert(ctx.equal_in(m, lit));
            assert(lit == (Lit { var: lit.var, negated: false }));
            assert(lit_true(a, clause[n]));
        }
    }
}

impl Default for EufTheory {
    fn default() -> (theory: Self)
        ensures
            theory.wf(),
            theory.interned().sorts.len() == 0,
            theory.interned().symbols.len() == 0,
            theory.interned().terms.len() == 0,
            theory.interned().atoms.len() == 0,
            theory.bindings().len() == 0,
    {
        EufTheory::new()
    }
}

} // verus!
