//! Budgeted search for an assignment that satisfies clauses and equality atoms.

use crate::batch::{stock, Batch};
use crate::effort::{
    check_bound, drawn, lemma_check_metered, lemma_metered_more, lemma_metered_trans, metered,
};
use crate::euf_core::{atoms_view, CheckBudget, EufCheckOutcome, EufSolver, TermId, TheoryAtom};
use crate::sat::{
    agrees, clause_views, clauses_true, lemma_unset_all, lemma_unset_update, lits_below, lits_true,
    next_step, unset, Assignment, Lit, Solver, Step, Var,
};
use crate::semantics::{atom_holds, atoms_hold, atoms_in_range, value, AtomView, Interp, TermView};
use vstd::prelude::*;

verus! {

/// Result of one satisfiability check.
#[derive(Debug, Clone, Copy, PartialEq, Eq, Structural)]
pub enum SatResult {
    /// Some model satisfies everything asserted.
    Sat,
    /// No model does.
    Unsat,
    /// The procedure cannot tell.
    Unknown,
    /// The caller's budget ran out before an answer was found.
    Interrupted,
}

/// The SMT-LIB word for a result.
pub open spec fn smtlib_word(result: SatResult) -> Seq<char> {
    match result {
        SatResult::Sat => "sat"@,
        SatResult::Unsat => "unsat"@,
        SatResult::Unknown => "unknown"@,
        SatResult::Interrupted => "unknown"@,
    }
}

/// The name of a result in messages.
pub open spec fn result_name(result: SatResult) -> Seq<char> {
    match result {
        SatResult::Sat => "sat"@,
        SatResult::Unsat => "unsat"@,
        SatResult::Unknown => "unknown"@,
        SatResult::Interrupted => "interrupted"@,
    }
}

impl SatResult {
    /// Returns the name of this result in messages.
    pub fn name(self) -> (name: &'static str)
        ensures
            name@ == result_name(self),
    {
        match self {
            SatResult::Sat => "sat",
            SatResult::Unsat => "unsat",
            SatResult::Unknown => "unknown",
            SatResult::Interrupted => "interrupted",
        }
    }

    /// Returns the SMT-LIB word for this result.
    pub fn as_smtlib(self) -> (word: &'static str)
        ensures
            word@ == smtlib_word(self),
    {
        match self {
            SatResult::Sat => "sat",
            SatResult::Unsat => "unsat",
            SatResult::Unknown => "unknown",
            SatResult::Interrupted => "unknown",
        }
    }
}

/// The relation that a theory variable stands for.
#[derive(Debug, Clone, Copy, PartialEq, Eq, Structural)]
pub enum TheoryRelation {
    /// The two terms are equal.
    Eq,
    /// The two terms differ.
    Diseq,
}

/// A relation between two terms.
#[derive(Debug, Clone, Copy, PartialEq, Eq, Structural)]
pub struct TheoryKey {
    /// The relation.
    pub relation: TheoryRelation,
    /// Left term.
    pub lhs: TermId,
    /// Right term.
    pub rhs: TermId,
}

impl TheoryKey {
    /// Creates one relation between two terms.
    pub fn new(relation: TheoryRelation, lhs: TermId, rhs: TermId) -> (key: Self)
        ensures
            key == (TheoryKey { relation, lhs, rhs }),
    {
        TheoryKey { relation, lhs, rhs }
    }

    /// The relation as an atom.
    pub open spec fn atom(self) -> AtomView {
        AtomView {
            equal: self.relation == TheoryRelation::Eq,
            lhs: self.lhs.id(),
            rhs: self.rhs.id(),
        }
    }

    /// Both terms are in the table.
    pub open spec fn in_range(self, terms: Seq<TermView>) -> bool {
        self.lhs.id() < terms.len() && self.rhs.id() < terms.len()
    }
}

/// Under `m`, the relation of every theory variable holds exactly when the variable is true.
pub open spec fn keys_match(
    terms: Seq<TermView>,
    keys: Seq<Option<TheoryKey>>,
    m: Interp,
    a: Assignment,
) -> bool {
    forall|v: int|
        0 <= v < keys.len() && (#[trigger] keys[v]) is Some ==> a(v) == atom_holds(
            terms,
            m,
            (keys[v]->0).atom(),
        )
}

/// The relations speak of terms of the table.
pub open spec fn keys_in_range(terms: Seq<TermView>, keys: Seq<Option<TheoryKey>>) -> bool {
    forall|v: int|
        0 <= v < keys.len() && (#[trigger] keys[v]) is Some ==> (keys[v]->0).in_range(terms)
}

/// The clauses are true under `a`, and some interpretation gives the relations the values of `a`.
pub open spec fn solves(
    terms: Seq<TermView>,
    keys: Seq<Option<TheoryKey>>,
    clauses: Seq<Seq<Lit>>,
    m: Interp,
    a: Assignment,
) -> bool {
    clauses_true(a, clauses) && keys_match(terms, keys, m, a)
}

/// No solution agrees with the values that are set.
pub open spec fn hopeless(
    terms: Seq<TermView>,
    keys: Seq<Option<TheoryKey>>,
    clauses: Seq<Seq<Lit>>,
    vals: Seq<Option<bool>>,
) -> bool {
    forall|m: Interp, a: Assignment|
        agrees(a, vals) ==> !#[trigger] solves(terms, keys, clauses, m, a)
}

/// How a search ended.
enum Found {
    /// A solution exists.
    Yes,
    /// No solution agrees with the values that are set.
    No,
    /// The budget ran out.
    Interrupted,
}

/// The atom that a decided theory variable stands for.
fn decided_atom(key: TheoryKey, value: bool) -> (atom: TheoryAtom)
    ensures
        atom.atom() == (AtomView {
            equal: key.atom().equal == value,
            lhs: key.atom().lhs,
            rhs: key.atom().rhs,
        }),
{
    let equal = match key.relation {
        TheoryRelation::Eq => value,
        TheoryRelation::Diseq => !value,
    };
    if equal {
        TheoryAtom::Eq(key.lhs, key.rhs)
    } else {
        TheoryAtom::Diseq(key.lhs, key.rhs)
    }
}

/// The atoms of all decided theory variables.
fn decided_atoms(
    keys: &Vec<Option<TheoryKey>>,
    vals: &Vec<Option<bool>>,
    Ghost(terms): Ghost<Seq<TermView>>,
) -> (atoms: Vec<TheoryAtom>)
    requires
        keys_in_range(terms, keys@),
        keys@.len() <= vals@.len(),
    ensures
        atoms@.len() <= keys@.len(),
        atoms_in_range(terms, atoms_view(atoms@)),
        forall|m: Interp| #[trigger]
            atoms_hold(terms, m, atoms_view(atoms@)) <==> forall|v: int|
                0 <= v < keys@.len() && (#[trigger] keys@[v]) is Some && vals@[v] is Some
                    ==> vals@[v]->0 == atom_holds(terms, m, (keys@[v]->0).atom()),
{
    let mut atoms: Vec<TheoryAtom> = Vec::new();
    let mut v: usize = 0;
    while v < keys.len()
        invariant
            atoms@.len() <= v,
            0 <= v <= keys.len(),
            keys_in_range(terms, keys@),
            keys@.len() <= vals@.len(),
            atoms_in_range(terms, atoms_view(atoms@)),
            forall|m: Interp| #[trigger]
                atoms_hold(terms, m, atoms_view(atoms@)) <==> forall|w: int|
                    0 <= w < v && (#[trigger] keys@[w]) is Some && vals@[w] is Some ==> vals@[w]->0
                        == atom_holds(terms, m, (keys@[w]->0).atom()),
        decreases keys.len() - v,
    {
        if let Some(key) = keys[v] {
            if let Some(value) = vals[v] {
                let atom = decided_atom(key, value);
                let ghost before = atoms_view(atoms@);
                atoms.push(atom);
                proof {
                    assert(keys@[v as int] is Some);
                    let after = atoms_view(atoms@);
                    assert(after =~= before.push(atom.atom()));
                    let n = before.len() as int;
                    assert(after[n] == atom.atom());
                    assert forall|i: int| 0 <= i < after.len() implies 0 <= (
                    #[trigger] after[i]).lhs < terms.len() && 0 <= after[i].rhs < terms.len() by {
                        if i < n {
                            assert(after[i] == before[i]);
                        } else {
                            crate::euf_core::lemma_term_id_range(key.lhs);
                            crate::euf_core::lemma_term_id_range(key.rhs);
                        }
                    }
                    assert forall|m: Interp| #[trigger] atoms_hold(terms, m, after) <==> atoms_hold(
                        terms,
                        m,
                        before,
                    ) && atom_holds(terms, m, atom.atom()) by {
                        if atoms_hold(terms, m, after) {
                            assert(atom_holds(terms, m, after[n]));
                            assert forall|i: int| 0 <= i < before.len() implies #[trigger] atom_holds(
                            terms, m, before[i]) by {
                                assert(atom_holds(terms, m, after[i]));
                            }
                        }
                        if atoms_hold(terms, m, before) && atom_holds(terms, m, atom.atom()) {
                            assert forall|i: int| 0 <= i < after.len() implies #[trigger] atom_holds(
                            terms, m, after[i]) by {
                                if i < n {
                                    assert(atom_holds(terms, m, before[i]));
                                }
                            }
                        }
                    }
                    assert forall|m: Interp| #[trigger]
                        atoms_hold(terms, m, after) <==> forall|w: int|
                            0 <= w < v + 1 && (#[trigger] keys@[w]) is Some && vals@[w] is Some
                                ==> vals@[w]->0 == atom_holds(terms, m, (keys@[w]->0).atom()) by {
                        assert(atom_holds(terms, m, atom.atom()) == (value == atom_holds(
                            terms,
                            m,
                            key.atom(),
                        )));
                        assert(atoms_hold(terms, m, before) || !atoms_hold(terms, m, before));
                    }
                }
            }
        }
        v += 1;
    }
    atoms
}

/// The most checkpoints of a search with `open` undecided variables, each step of which passes at
/// most `step` of them.
pub open spec fn search_bound(step: nat, open: nat) -> nat
    decreases open,
{
    if open == 0 {
        step
    } else {
        step + 2 * search_bound(step, (open - 1) as nat)
    }
}

/// More undecided variables take no fewer checkpoints.
proof fn lemma_search_bound(step: nat, a: nat, b: nat)
    requires
        a <= b,
    ensures
        search_bound(step, a) <= search_bound(step, b),
    decreases b,
{
    if a < b {
        lemma_search_bound(step, a, (b - 1) as nat);
    }
}

/// The most checkpoints of one step of a search over `vars` variables.
pub open spec fn step_bound(terms: Seq<TermView>, vars: nat) -> nat {
    1 + check_bound(terms, vars)
}

/// Decides the remaining variables in every way until clauses and relations accept.
fn search<B: CheckBudget>(
    euf: &EufSolver,
    keys: &Vec<Option<TheoryKey>>,
    clauses: &Vec<Vec<Lit>>,
    vals: &mut Vec<Option<bool>>,
    budget: &mut B,
    batch: &mut Batch,
) -> (found: Found)
    requires
        old(batch).wf(),
        euf.wf(),
        keys_in_range(euf.views(), keys@),
        keys@.len() <= old(vals)@.len(),
        old(vals)@.len() <= u32::MAX,
        forall|i: int|
            0 <= i < clauses.len() ==> lits_below((#[trigger] clauses[i])@, old(vals).len() as nat),
    ensures
        final(batch).wf(),
        final(batch).quantum == old(batch).quantum,
        found is Yes ==> exists|m: Interp, a: Assignment| #[trigger]
            solves(euf.views(), keys@, clause_views(clauses@), m, a),
        found is No ==> hopeless(euf.views(), keys@, clause_views(clauses@), old(vals)@),
        found is No ==> final(vals)@ == old(vals)@,
        old(budget).unlimited() ==> !(found is Interrupted) && final(budget).unlimited(),
        metered(
            stock(old(budget), *old(batch)),
            stock(final(budget), *final(batch)),
            !(found is Interrupted),
            search_bound(
                step_bound(euf.views(), old(vals)@.len()),
                unset(old(vals)@, old(vals).len() as int),
            ),
        ),
    decreases unset(old(vals)@, old(vals).len() as int),
{
    let ghost terms = euf.views();
    let ghost cs = clause_views(clauses@);
    let ghost b0 = stock(budget, *batch);
    let ghost each = step_bound(terms, vals@.len());
    let ghost open = unset(vals@, vals.len() as int);
    let ghost whole = search_bound(each, open);
    proof {
        assert(1 <= each <= whole);
    }
    if !batch.checkpoint(budget) {
        return Found::Interrupted;
    }
    proof {
        assert(drawn(b0, stock(budget, *batch), 1));
        assert(metered(b0, stock(budget, *batch), true, 1));
        lemma_metered_more(b0, stock(budget, *batch), true, 1, whole);
    }
    let step = next_step(vals, clauses);
    if let Step::Dead = step {
        proof {
            assert(hopeless(terms, keys@, cs, vals@));
        }
        return Found::No;
    }
    let atoms = decided_atoms(keys, vals, Ghost(terms));
    let ghost b1 = stock(budget, *batch);
    let outcome = euf.check_batched(atoms.as_slice(), budget, batch);
    let ghost b2 = stock(budget, *batch);
    proof {
        let finished = !(outcome is Interrupted);
        lemma_check_metered(terms, atoms_view(atoms@), b1, b2, finished, vals@.len());
        lemma_metered_trans(b0, b1, b2, finished, 1, check_bound(terms, vals@.len()));
        lemma_metered_more(b0, b2, finished, each, whole);
    }
    match outcome {
        EufCheckOutcome::Interrupted => {
            return Found::Interrupted;
        },
        EufCheckOutcome::Conflict(_) => {
            proof {
                assert forall|m: Interp, a: Assignment| agrees(a, vals@) implies !#[trigger] solves(
                    terms,
                    keys@,
                    cs,
                    m,
                    a,
                ) by {
                    if solves(terms, keys@, cs, m, a) {
                        assert forall|v: int|
                            0 <= v < keys@.len() && (#[trigger] keys@[v]) is Some && vals@[v]
                                is Some implies vals@[v]->0 == atom_holds(
                            terms,
                            m,
                            (keys@[v]->0).atom(),
                        ) by {
                            assert(a(v) == vals@[v]->0);
                        }
                        assert(atoms_hold(terms, m, atoms_view(atoms@)));
                    }
                }
            }
            return Found::No;
        },
        EufCheckOutcome::Consistent => {},
    }
    match step {
        Step::Dead => Found::No,
        Step::Complete => {
            proof {
                let m = choose|m: Interp| atoms_hold(terms, m, atoms_view(atoms@));
                let a = |v: int| 0 <= v < vals@.len() && vals@[v]->0;
                assert(agrees(a, vals@));
                assert(keys_match(terms, keys@, m, a)) by {
                    assert forall|v: int|
                        0 <= v < keys@.len() && (#[trigger] keys@[v]) is Some implies a(v)
                        == atom_holds(terms, m, (keys@[v]->0).atom()) by {
                        assert(vals@[v] is Some);
                    }
                }
                assert(solves(terms, keys@, cs, m, a));
            }
            Found::Yes
        },
        Step::Forced(lit) | Step::Branch(lit) => {
            let var = lit.var().index();
            let ghost v = lit.var.0 as int;
            let ghost n = vals@.len() as int;
            let first = !lit.is_negated();
            proof {
                lemma_unset_update(vals@, v, first, n);
                lemma_unset_update(vals@, v, !first, n);
            }
            let ghost v0 = vals@;
            vals.set(var, Some(first));
            let found = search(euf, keys, clauses, vals, budget, batch);
            let ghost b3 = stock(budget, *batch);
            proof {
                let below = search_bound(each, (open - 1) as nat);
                let finished = !(found is Interrupted);
                lemma_metered_trans(b0, b2, b3, finished, each, below);
                lemma_metered_more(b0, b3, finished, each + below, whole);
            }
            match found {
                Found::Yes => {
                    return Found::Yes;
                },
                Found::Interrupted => {
                    return Found::Interrupted;
                },
                Found::No => {},
            }
            vals.set(var, Some(!first));
            proof {
                assert(vals@ =~= v0.update(v, Some(!first)));
            }
            let found = search(euf, keys, clauses, vals, budget, batch);
            let ghost b4 = stock(budget, *batch);
            proof {
                let below = search_bound(each, (open - 1) as nat);
                lemma_metered_trans(b0, b3, b4, !(found is Interrupted), each + below, below);
            }
            match found {
                Found::Yes => {
                    return Found::Yes;
                },
                Found::Interrupted => {
                    return Found::Interrupted;
                },
                Found::No => {},
            }
            vals.set(var, None);
            proof {
                assert(vals@ =~= v0);
                assert forall|m: Interp, a: Assignment| agrees(a, v0) implies !#[trigger] solves(
                    terms,
                    keys@,
                    cs,
                    m,
                    a,
                ) by {
                    if a(v) == first {
                        assert(agrees(a, v0.update(v, Some(first))));
                    } else {
                        assert(agrees(a, v0.update(v, Some(!first))));
                    }
                }
            }
            Found::No
        },
    }
}

/// Clauses and theory variables that only grow.
pub struct IncrementalSolver {
    /// Definitions and guarded assertions over allocated variables.
    store: Solver,
    /// The relation of every theory variable.
    keys: Vec<Option<TheoryKey>>,
}

impl IncrementalSolver {
    /// The number of allocated variables.
    pub closed spec fn var_count(&self) -> nat {
        self.store.var_count()
    }

    /// The defining clauses.
    pub closed spec fn definitions(&self) -> Seq<Seq<Lit>> {
        self.store.rooted()
    }

    /// The asserted clauses.
    pub closed spec fn assertions(&self) -> Seq<Seq<Lit>> {
        self.store.scoped()
    }

    /// The relation of every theory variable.
    pub closed spec fn relations(&self) -> Seq<Option<TheoryKey>> {
        self.keys@
    }

    /// The parts fit each other.
    pub closed spec fn wf(&self) -> bool {
        &&& self.store.wf()
        &&& self.keys@.len() <= self.store.var_count()
    }

    /// What consistency says of the parts.
    pub proof fn lemma_wf(&self)
        requires
            self.wf(),
        ensures
            self.var_count() <= u32::MAX,
            self.relations().len() <= self.var_count(),
            forall|i: int|
                0 <= i < self.definitions().len() ==> lits_below(
                    #[trigger] self.definitions()[i],
                    self.var_count(),
                ),
            forall|i: int|
                0 <= i < self.assertions().len() ==> lits_below(
                    #[trigger] self.assertions()[i],
                    self.var_count(),
                ),
    {
        self.store.lemma_wf();
        let active = self.store.active();
    }

    /// Creates a solver without variables and clauses.
    pub fn new() -> (solver: Self)
        ensures
            solver.wf(),
            solver.var_count() == 0,
            solver.definitions() == Seq::<Seq<Lit>>::empty(),
            solver.assertions() == Seq::<Seq<Lit>>::empty(),
            solver.relations() == Seq::<Option<TheoryKey>>::empty(),
    {
        IncrementalSolver { store: Solver::new(), keys: Vec::new() }
    }

    /// Returns the number of allocated variables.
    pub fn num_vars(&self) -> (n: u32)
        ensures
            n == self.var_count(),
    {
        self.store.num_vars()
    }

    /// Allocates one variable, unless all handles are in use.
    pub fn alloc_bool_var(&mut self) -> (var: Option<Var>)
        requires
            old(self).wf(),
        ensures
            final(self).wf(),
            final(self).definitions() == old(self).definitions(),
            final(self).assertions() == old(self).assertions(),
            final(self).relations() == old(self).relations(),
            var is None <==> old(self).var_count() == u32::MAX,
            var is None ==> final(self).var_count() == old(self).var_count(),
            var matches Some(var) ==> var.0 == old(self).var_count() && final(self).var_count()
                == old(self).var_count() + 1,
    {
        proof {
            self.store.lemma_wf();
        }
        if self.store.num_vars() == u32::MAX {
            return None;
        }
        Some(self.store.new_var())
    }

    /// Makes `var` stand for the relation `key`.
    pub fn add_theory_atom(&mut self, var: Var, key: TheoryKey)
        requires
            old(self).wf(),
            var.0 < old(self).var_count(),
            old(self).relations().len() <= var.0,
        ensures
            final(self).wf(),
            final(self).var_count() == old(self).var_count(),
            final(self).definitions() == old(self).definitions(),
            final(self).assertions() == old(self).assertions(),
            final(self).relations().len() == var.0 + 1,
            final(self).relations()[var.0 as int] == Some(key),
            forall|v: int|
                0 <= v < var.0 ==> #[trigger] final(self).relations()[v] == if v < old(self).relations().len() {
                    old(self).relations()[v]
                } else {
                    None
                },
    {
        while self.keys.len() < var.index()
            invariant
                self.keys@.len() <= var.0,
                old(self).wf(),
                self.store == old(self).store,
                old(self).keys@.len() <= self.keys@.len(),
                forall|v: int|
                    0 <= v < self.keys@.len() ==> #[trigger] self.keys@[v] == if v < old(self).keys@.len() {
                        old(self).keys@[v]
                    } else {
                        None
                    },
            decreases var.0 - self.keys@.len(),
        {
            self.keys.push(None);
        }
        self.keys.push(Some(key));
    }

    /// Adds one defining clause.
    pub fn add_definition(&mut self, clause: &[Lit])
        requires
            old(self).wf(),
            lits_below(clause@, old(self).var_count()),
        ensures
            final(self).wf(),
            final(self).var_count() == old(self).var_count(),
            final(self).definitions() == old(self).definitions().push(clause@),
            final(self).assertions() == old(self).assertions(),
            final(self).relations() == old(self).relations(),
    {
        self.store.add_permanent_clause(clause);
    }

    /// Adds one asserted clause, unless it always holds.
    pub fn add_clause(&mut self, clause: &[Lit])
        requires
            old(self).wf(),
            lits_below(clause@, old(self).var_count()),
        ensures
            final(self).wf(),
            final(self).var_count() == old(self).var_count(),
            final(self).definitions() == old(self).definitions(),
            final(self).relations() == old(self).relations(),
            final(self).assertions() == if crate::sat::tautology(clause@) {
                old(self).assertions()
            } else {
                old(self).assertions().push(clause@)
            },
    {
        let _ = self.store.add_clause(clause);
    }

    /// Decides whether some model satisfies the clauses, the assumptions and the relations.
    pub fn solve_with_assumptions_and_budget<B: CheckBudget>(
        &self,
        euf: &EufSolver,
        assumptions: &[Lit],
        budget: &mut B,
    batch: &mut Batch,
    ) -> (result: SatResult)
        requires
            old(batch).wf(),
            self.wf(),
            euf.wf(),
            keys_in_range(euf.views(), self.relations()),
            lits_below(assumptions@, self.var_count()),
        ensures
            final(batch).wf(),
            final(batch).quantum == old(batch).quantum,
            result != SatResult::Unknown,
            result == SatResult::Sat ==> exists|m: Interp, a: Assignment|
                {
                    &&& #[trigger] keys_match(euf.views(), self.relations(), m, a)
                    &&& clauses_true(a, self.definitions())
                    &&& clauses_true(a, self.assertions())
                    &&& lits_true(a, assumptions@)
                },
            result == SatResult::Unsat ==> forall|m: Interp, a: Assignment|
                !{
                    &&& #[trigger] keys_match(euf.views(), self.relations(), m, a)
                    &&& clauses_true(a, self.definitions())
                    &&& clauses_true(a, self.assertions())
                    &&& lits_true(a, assumptions@)
                },
            old(budget).unlimited() ==> result != SatResult::Interrupted && final(budget).unlimited(),
            metered(
                stock(old(budget), *old(batch)),
                stock(final(budget), *final(batch)),
                result != SatResult::Interrupted,
                search_bound(step_bound(euf.views(), self.var_count()), self.var_count()),
            ),
    {
        let n = self.store.num_vars();
        let clauses = self.store.active_clauses(assumptions);
        let ghost cs = clause_views(clauses@);
        let mut vals: Vec<Option<bool>> = Vec::new();
        while vals.len() < n as usize
            invariant
                vals@.len() <= n,
                forall|v: int| 0 <= v < vals@.len() ==> (#[trigger] vals@[v]) is None,
            decreases n - vals@.len(),
        {
            vals.push(None);
        }
        let ghost v0 = vals@;
        proof {
            assert forall|i: int| 0 <= i < clauses@.len() implies lits_below(
                (#[trigger] clauses@[i])@,
                n as nat,
            ) by {
                assert(cs[i] == clauses@[i]@);
            }
            assert forall|a: Assignment| #[trigger] agrees(a, v0) by {}
            assert forall|a: Assignment|
                #![trigger clauses_true(a, cs)]
                clauses_true(a, cs) <==> clauses_true(a, self.definitions()) && clauses_true(
                    a,
                    self.assertions(),
                ) && lits_true(a, assumptions@) by {}
        }
        let found = search(euf, &self.keys, &clauses, &mut vals, budget, batch);
        proof {
            let step = step_bound(euf.views(), n as nat);
            let open = unset(v0, n as int);
            lemma_unset_all(v0, n as int);
            lemma_search_bound(step, open, n as nat);
            lemma_metered_more(
                stock(old(budget), *old(batch)),
                stock(budget, *batch),
                !(found is Interrupted),
                search_bound(step, open),
                search_bound(step, n as nat),
            );
        }
        match found {
            Found::Yes => {
                proof {
                    let (m, a) = choose|m: Interp, a: Assignment| #[trigger]
                        solves(euf.views(), self.keys@, cs, m, a);
                    assert(keys_match(euf.views(), self.relations(), m, a));
                }
                SatResult::Sat
            },
            Found::No => {
                proof {
                    assert forall|m: Interp, a: Assignment|
                        !{
                            &&& #[trigger] keys_match(euf.views(), self.relations(), m, a)
                            &&& clauses_true(a, self.definitions())
                            &&& clauses_true(a, self.assertions())
                            &&& lits_true(a, assumptions@)
                        } by {
                        assert(agrees(a, v0));
                        assert(!solves(euf.views(), self.keys@, cs, m, a));
                    }
                }
                SatResult::Unsat
            },
            Found::Interrupted => SatResult::Interrupted,
        }
    }
}

} // verus!
