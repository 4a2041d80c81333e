//! Clauses over Boolean variables, theories that constrain their assignments, and the search for
//! an assignment that both accept.

use crate::telemetry::{
    counted, record_sat_conflict, record_sat_decision, record_sat_propagation, Counters, SatCounter,
    SatCounters, SatGauges,
};
use vstd::prelude::*;

verus! {

/// One Boolean variable.
#[derive(Debug, Clone, Copy, PartialEq, Eq, Hash, PartialOrd, Ord, Structural)]
pub struct Var(pub u32);

impl Var {
    /// Returns the zero-based index of this variable.
    pub fn index(self) -> (i: usize)
        ensures
            i == self.0,
    {
        self.0 as usize
    }
}

/// One variable or its negation.
#[derive(Debug, Clone, Copy, PartialEq, Eq, Hash, Structural)]
pub struct Lit {
    /// The variable.
    pub var: Var,
    /// Whether the literal is the negation of the variable.
    pub negated: bool,
}

impl Lit {
    /// Creates the literal of `var`, negated when `negated` is set.
    pub fn new(var: Var, negated: bool) -> (lit: Self)
        ensures
            lit == (Lit { var, negated }),
    {
        Lit { var, negated }
    }

    /// Returns the variable of this literal.
    pub fn var(self) -> (var: Var)
        ensures
            var == self.var,
    {
        self.var
    }

    /// Returns whether this literal is a negated variable.
    pub fn is_negated(self) -> (negated: bool)
        ensures
            negated == self.negated,
    {
        self.negated
    }

    /// The literal that is true exactly when this one is false.
    pub open spec fn spec_negate(self) -> Lit {
        Lit { var: self.var, negated: !self.negated }
    }

    /// Returns the literal that is true exactly when this one is false.
    pub fn negate(self) -> (lit: Self)
        ensures
            lit == self.spec_negate(),
    {
        Lit { var: self.var, negated: !self.negated }
    }
}

/// A value for every variable.
pub type Assignment = spec_fn(int) -> bool;

/// The literal is true under `a`.
pub open spec fn lit_true(a: Assignment, lit: Lit) -> bool {
    a(lit.var.0 as int) != lit.negated
}

/// Some literal of the clause is true under `a`.
pub open spec fn clause_true(a: Assignment, clause: Seq<Lit>) -> bool {
    exists|i: int| 0 <= i < clause.len() && lit_true(a, #[trigger] clause[i])
}

/// Every literal is true under `a`.
pub open spec fn lits_true(a: Assignment, lits: Seq<Lit>) -> bool {
    forall|i: int| 0 <= i < lits.len() ==> lit_true(a, #[trigger] lits[i])
}

/// Every clause is true under `a`.
pub open spec fn clauses_true(a: Assignment, clauses: Seq<Seq<Lit>>) -> bool {
    forall|i: int| 0 <= i < clauses.len() ==> clause_true(a, #[trigger] clauses[i])
}

/// Every literal of the clause is the negation of one of `trail`.
pub open spec fn refuted_by(clause: Seq<Lit>, trail: Seq<Lit>) -> bool {
    forall|i: int|
        0 <= i < clause.len() ==> trail.contains((#[trigger] clause[i]).spec_negate())
}

/// No variable occurs twice among the literals.
pub open spec fn distinct_vars(lits: Seq<Lit>) -> bool {
    forall|i: int, j: int|
        0 <= i < lits.len() && 0 <= j < lits.len() && (#[trigger] lits[i]).var == (
        #[trigger] lits[j]).var ==> i == j
}

/// The variable of some literal is `var`.
pub open spec fn mentions_var(lits: Seq<Lit>, var: Var) -> bool {
    exists|i: int| 0 <= i < lits.len() && (#[trigger] lits[i]).var == var
}

/// What a clause handed over by a theory is for.
#[derive(Debug, Clone, Copy, PartialEq, Eq, Structural)]
pub enum TheoryClauseKind {
    /// The clause is false under the current assignment.
    ConflictExplanation,
    /// The clause implies its last literal.
    PropagationExplanation,
}

/// One clause that holds in the theory.
#[derive(Debug, Clone, PartialEq, Eq)]
pub struct TheoryClause {
    /// The literals of the clause.
    pub lits: Vec<Lit>,
    /// What the clause is for.
    pub kind: TheoryClauseKind,
}

/// Some clause is a conflict explanation.
pub open spec fn has_conflict(clauses: Seq<TheoryClause>) -> bool {
    exists|i: int|
        0 <= i < clauses.len() && (#[trigger] clauses[i]).kind
            == TheoryClauseKind::ConflictExplanation
}

/// Which variables a theory constrains, and which assignments it accepts.
pub struct Constraints {
    /// The constrained variables.
    pub bound: spec_fn(Var) -> bool,
    /// The accepted assignments.
    pub accepted: spec_fn(Assignment) -> bool,
}

impl Constraints {
    /// The theory constrains this variable.
    pub open spec fn binds(self, var: Var) -> bool {
        (self.bound)(var)
    }

    /// The theory accepts this assignment.
    pub open spec fn admits(self, a: Assignment) -> bool {
        (self.accepted)(a)
    }
}

/// `after` is `before` followed by clauses that hold in the theory, of which the conflicts are false
/// under the trail.
pub open spec fn appended_clauses(
    theory: Constraints,
    trail: Seq<Lit>,
    before: Seq<TheoryClause>,
    after: Seq<TheoryClause>,
) -> bool {
    &&& before.len() <= after.len()
    &&& after.take(before.len() as int) == before
    &&& forall|i: int|
        before.len() <= i < after.len() ==> theory_valid(theory, (#[trigger] after[i]).lits@)
    &&& forall|i: int|
        before.len() <= i < after.len() && (#[trigger] after[i]).kind
            == TheoryClauseKind::ConflictExplanation ==> refuted_by(after[i].lits@, trail)
}

/// The clause is true under every assignment that the theory accepts.
pub open spec fn theory_valid(theory: Constraints, clause: Seq<Lit>) -> bool {
    forall|a: Assignment| #[trigger] theory.admits(a) ==> clause_true(a, clause)
}

/// A decision procedure for the assignments of a set of bound variables, driven by a search that
/// assigns variables level by level and takes assignments back in the opposite order.
pub trait Theory: Sized {
    /// What the theory knows apart from the search.
    type Setting;

    /// The permanent state is consistent.
    spec fn inv(&self) -> bool;

    /// The state of the current search is consistent too.
    spec fn searching(&self) -> bool;

    /// A consistent search state rests on a consistent permanent state.
    proof fn lemma_searching(&self)
        requires
            self.searching(),
        ensures
            self.inv(),
    ;

    /// What the theory knows apart from the search, which a search leaves unchanged.
    spec fn setting(&self) -> Self::Setting;

    /// The constraints that the theory stands for.
    spec fn constraints(&self) -> Constraints;

    /// Assigned literals of bound variables in assignment order.
    spec fn trail(&self) -> Seq<Lit>;

    /// Length of the trail at the start of each open level.
    spec fn levels(&self) -> Seq<nat>;

    /// Every assignment has been processed.
    spec fn drained(&self) -> bool;

    /// A conflict has been handed out and not been backtracked over.
    spec fn conflicted(&self) -> bool;

    /// Whether an assignment is accepted depends on the bound variables alone.
    proof fn lemma_admits_bound(&self, a: Assignment, b: Assignment)
        requires
            forall|var: Var| #[trigger]
                self.constraints().binds(var) ==> a(var.0 as int) == b(var.0 as int),
        ensures
            self.constraints().admits(a) == self.constraints().admits(b),
    ;

    /// Starts a new search with nothing assigned.
    fn notify_search_start(&mut self)
        requires
            old(self).inv(),
        ensures
            final(self).searching(),
            final(self).constraints() == old(self).constraints(),
            final(self).setting() == old(self).setting(),
            final(self).trail() == Seq::<Lit>::empty(),
            final(self).levels() == Seq::<nat>::empty(),
            final(self).drained(),
            !final(self).conflicted(),
    ;

    /// Opens a new level.
    fn notify_new_level(&mut self)
        requires
            old(self).searching(),
            old(self).drained(),
            !old(self).conflicted(),
        ensures
            final(self).searching(),
            final(self).constraints() == old(self).constraints(),
            final(self).setting() == old(self).setting(),
            final(self).trail() == old(self).trail(),
            final(self).levels() == old(self).levels().push(old(self).trail().len()),
            final(self).drained(),
            !final(self).conflicted(),
    ;

    /// Records that `lit` is now true.
    fn notify_assignment(&mut self, lit: Lit)
        requires
            old(self).searching(),
            !old(self).conflicted(),
            !mentions_var(old(self).trail(), lit.var),
        ensures
            final(self).searching(),
            final(self).constraints() == old(self).constraints(),
            final(self).setting() == old(self).setting(),
            final(self).trail() == if old(self).constraints().binds(lit.var) {
                old(self).trail().push(lit)
            } else {
                old(self).trail()
            },
            final(self).levels() == old(self).levels(),
            !final(self).conflicted(),
    ;

    /// Takes back every assignment made since level `level` was left for a deeper one.
    fn notify_backtrack(&mut self, level: usize)
        requires
            old(self).searching(),
            old(self).drained(),
            level < old(self).levels().len(),
        ensures
            final(self).searching(),
            final(self).constraints() == old(self).constraints(),
            final(self).setting() == old(self).setting(),
            final(self).trail() == old(self).trail().take(old(self).levels()[level as int] as int),
            final(self).levels() == old(self).levels().take(level as int),
            final(self).drained(),
            !final(self).conflicted(),
    ;

    /// Processes the recorded assignments and appends the clauses that follow.
    fn drain_clauses(&mut self, out: &mut Vec<TheoryClause>)
        requires
            old(self).searching(),
            !old(self).conflicted(),
        ensures
            final(self).searching(),
            final(self).constraints() == old(self).constraints(),
            final(self).setting() == old(self).setting(),
            final(self).trail() == old(self).trail(),
            final(self).levels() == old(self).levels(),
            final(self).drained(),
            appended_clauses(
                old(self).constraints(),
                old(self).trail(),
                old(out)@,
                final(out)@,
            ),
            final(self).conflicted() == has_conflict(
                final(out)@.skip(old(out)@.len() as int),
            ),
    ;

    /// Processes the recorded assignments, appends the clauses that follow, and appends a conflict
    /// unless the theory accepts some assignment that makes the whole trail true.
    fn final_check(&mut self, out: &mut Vec<TheoryClause>)
        requires
            old(self).searching(),
            !old(self).conflicted(),
        ensures
            final(self).searching(),
            final(self).constraints() == old(self).constraints(),
            final(self).setting() == old(self).setting(),
            final(self).trail() == old(self).trail(),
            final(self).levels() == old(self).levels(),
            final(self).drained(),
            appended_clauses(
                old(self).constraints(),
                old(self).trail(),
                old(out)@,
                final(out)@,
            ),
            final(self).conflicted() == has_conflict(
                final(out)@.skip(old(out)@.len() as int),
            ),
            !final(self).conflicted() ==> exists|a: Assignment| #[trigger]
                old(self).constraints().admits(a) && lits_true(a, old(self).trail()),
    ;
}

/// Result of one search.
#[derive(Debug, Clone, Copy, PartialEq, Eq, Structural)]
pub enum SatResult {
    /// Some assignment satisfies everything.
    Sat,
    /// No assignment does.
    Unsat,
}

/// Result of adding one clause.
#[derive(Debug, Clone, Copy, PartialEq, Eq, Structural)]
pub enum AddClauseResult {
    /// The clause was added.
    Added,
    /// The clause holds a literal and its negation, and was dropped.
    Satisfied,
    /// The clause is empty; no assignment satisfies the clauses of this scope any more.
    Inconsistent,
}

/// More scopes were asked to be closed than are open.
#[derive(Debug, Clone, Copy, PartialEq, Eq, Structural)]
pub enum PopError {
    /// No open scope is left.
    ScopeUnderflow,
}

/// Clauses in nested scopes over a growing set of variables.
#[derive(Debug)]
pub struct Solver {
    /// Number of allocated variables.
    num_vars: u32,
    /// Clauses that no scope holds, oldest first.
    permanent: Vec<Vec<Lit>>,
    /// Clauses of the open scopes, oldest first.
    clauses: Vec<Vec<Lit>>,
    /// Number of clauses at the start of each open scope.
    scopes: Vec<usize>,
    /// Events since the counters were last taken.
    tally: Counters,
}

/// The literal sequences of a list of clauses.
pub open spec fn clause_views(clauses: Seq<Vec<Lit>>) -> Seq<Seq<Lit>> {
    clauses.map_values(|c: Vec<Lit>| c@)
}

/// The variables of all literals are below `n`.
pub open spec fn lits_below(lits: Seq<Lit>, n: nat) -> bool {
    forall|i: int| 0 <= i < lits.len() ==> (#[trigger] lits[i]).var.0 < n
}

/// A literal and its negation both occur.
pub open spec fn tautology(lits: Seq<Lit>) -> bool {
    exists|i: int, j: int|
        0 <= i < lits.len() && 0 <= j < lits.len() && #[trigger] lits[i] == (
        #[trigger] lits[j]).spec_negate()
}

/// `a` agrees with all values that are set.
pub open spec fn agrees(a: Assignment, vals: Seq<Option<bool>>) -> bool {
    forall|v: int| 0 <= v < vals.len() && (#[trigger] vals[v]) is Some ==> a(v) == vals[v]->0
}

/// The values that are set are those of the trail, as far as the theory is concerned.
spec fn synchronized<T: Theory>(theory: T, vals: Seq<Option<bool>>) -> bool {
    &&& forall|i: int|
        0 <= i < theory.trail().len() ==> {
            let lit = #[trigger] theory.trail()[i];
            lit.var.0 < vals.len() && vals[lit.var.0 as int] == Some(!lit.negated)
        }
    &&& forall|v: int|
        0 <= v < vals.len() && (#[trigger] vals[v]) is Some && theory.constraints().binds(Var(v as u32))
            ==> theory.trail().contains(Lit { var: Var(v as u32), negated: !vals[v]->0 })
}

/// The number of unset values among the first `n`.
pub open spec fn unset(vals: Seq<Option<bool>>, n: int) -> nat
    decreases n,
{
    if n <= 0 {
        0
    } else {
        unset(vals, n - 1) + if vals[n - 1] is None {
            1nat
        } else {
            0
        }
    }
}

/// Setting one value leaves one unset value less.
pub proof fn lemma_unset_update(vals: Seq<Option<bool>>, v: int, x: bool, n: int)
    requires
        0 <= v < vals.len(),
        0 <= n <= vals.len(),
        vals[v] is None,
    ensures
        unset(vals.update(v, Some(x)), n) == if v < n {
            unset(vals, n) - 1
        } else {
            unset(vals, n) as int
        },
        v < n ==> unset(vals, n) > 0,
    decreases n,
{
    if n > 0 {
        lemma_unset_update(vals, v, x, n - 1);
    }
}

/// What the current values make of one clause.
enum ClauseStatus {
    /// Some literal is true.
    Satisfied,
    /// Every literal is false.
    Falsified,
    /// Every literal but this one is false.
    Unit(Lit),
    /// Two or more literals are undecided.
    Open,
}

/// The next thing for the search to do.
pub enum Step {
    /// Some clause is false.
    Dead,
    /// Assign this literal, which some clause leaves no choice about.
    Forced(Lit),
    /// Decide this literal.
    Branch(Lit),
    /// Every variable is decided and no clause is false.
    Complete,
}

/// The value of a literal, when its variable is decided.
fn lit_value(vals: &Vec<Option<bool>>, lit: Lit) -> (value: Option<bool>)
    requires
        lit.var.0 < vals.len(),
    ensures
        value == match vals[lit.var.0 as int] {
            Some(b) => Some(b != lit.negated),
            None => None,
        },
{
    match vals[lit.var.0 as usize] {
        Some(b) => Some(b != lit.negated),
        None => None,
    }
}

fn clause_status(vals: &Vec<Option<bool>>, clause: &Vec<Lit>) -> (status: ClauseStatus)
    requires
        lits_below(clause@, vals.len() as nat),
    ensures
        status is Falsified ==> forall|a: Assignment| #[trigger]
            agrees(a, vals@) ==> !clause_true(a, clause@),
        status is Satisfied ==> forall|a: Assignment| #[trigger]
            agrees(a, vals@) ==> clause_true(a, clause@),
        status matches ClauseStatus::Unit(lit) ==> {
            &&& lit.var.0 < vals.len()
            &&& vals[lit.var.0 as int] is None
            &&& forall|a: Assignment| #[trigger]
                agrees(a, vals@) && clause_true(a, clause@) ==> lit_true(a, lit)
        },
        status is Open ==> exists|v: int| 0 <= v < vals.len() && (#[trigger] vals[v]) is None,
{
    let mut pending: Option<Lit> = None;
    let mut open = false;
    let mut i: usize = 0;
    while i < clause.len()
        invariant
            0 <= i <= clause.len(),
            lits_below(clause@, vals.len() as nat),
            pending matches Some(lit) ==> lit.var.0 < vals.len() && vals[lit.var.0 as int] is None,
            pending is None ==> forall|j: int|
                0 <= j < i ==> vals[(#[trigger] clause[j]).var.0 as int] == Some(clause[j].negated),
            open ==> pending is Some,
            pending matches Some(only) ==> !open ==> forall|j: int|
                0 <= j < i ==> (#[trigger] clause[j]) == only || vals[clause[j].var.0 as int]
                    == Some(clause[j].negated),
        decreases clause.len() - i,
    {
        let lit = clause[i];
        match lit_value(vals, lit) {
            Some(true) => {
                proof {
                    assert forall|a: Assignment| #[trigger] agrees(a, vals@) implies clause_true(
                        a,
                        clause@,
                    ) by {
                        assert(vals@[lit.var.0 as int] is Some);
                        assert(lit_true(a, clause[i as int]));
                    }
                }
                return ClauseStatus::Satisfied;
            },
            Some(false) => {},
            None => {
                if pending.is_some() {
                    open = true;
                } else {
                    pending = Some(lit);
                }
            },
        }
        i += 1;
    }
    if open {
        return ClauseStatus::Open;
    }
    match pending {
        Some(lit) => {
            proof {
                assert forall|a: Assignment| #[trigger]
                    agrees(a, vals@) && clause_true(a, clause@) implies lit_true(a, lit) by {
                    let j = choose|j: int|
                        0 <= j < clause@.len() && lit_true(a, #[trigger] clause@[j]);
                    if clause[j] != lit {
                        assert(vals@[clause[j].var.0 as int] == Some(clause[j].negated));
                    }
                }
            }
            ClauseStatus::Unit(lit)
        },
        None => {
            proof {
                assert forall|a: Assignment| #[trigger] agrees(a, vals@) implies !clause_true(
                    a,
                    clause@,
                ) by {
                    if clause_true(a, clause@) {
                        let j = choose|j: int|
                            0 <= j < clause@.len() && lit_true(a, #[trigger] clause@[j]);
                        assert(vals@[clause[j].var.0 as int] == Some(clause[j].negated));
                    }
                }
            }
            ClauseStatus::Falsified
        },
    }
}

/// Picks the next thing for the search to do.
pub fn next_step(vals: &Vec<Option<bool>>, clauses: &Vec<Vec<Lit>>) -> (step: Step)
    requires
        forall|i: int|
            0 <= i < clauses.len() ==> lits_below((#[trigger] clauses[i])@, vals.len() as nat),
        vals.len() <= u32::MAX,
    ensures
        step is Dead ==> forall|a: Assignment| #[trigger]
            agrees(a, vals@) ==> !clauses_true(a, clause_views(clauses@)),
        step matches Step::Branch(lit) ==> lit.var.0 < vals.len() && vals[lit.var.0 as int] is None,
        step matches Step::Forced(lit) ==> {
            &&& lit.var.0 < vals.len()
            &&& vals[lit.var.0 as int] is None
            &&& forall|a: Assignment| #[trigger]
                agrees(a, vals@) && clauses_true(a, clause_views(clauses@)) ==> lit_true(a, lit)
        },
        step is Complete ==> {
            &&& forall|v: int| 0 <= v < vals.len() ==> (#[trigger] vals[v]) is Some
            &&& forall|a: Assignment| #[trigger]
                agrees(a, vals@) ==> clauses_true(a, clause_views(clauses@))
        },
{
    let mut unit: Option<Lit> = None;
    let mut undecided = false;
    let mut i: usize = 0;
    while i < clauses.len()
        invariant
            0 <= i <= clauses.len(),
            forall|j: int|
                0 <= j < clauses.len() ==> lits_below((#[trigger] clauses[j])@, vals.len() as nat),
            unit matches Some(lit) ==> {
                &&& lit.var.0 < vals.len()
                &&& vals[lit.var.0 as int] is None
                &&& forall|a: Assignment| #[trigger]
                    agrees(a, vals@) && clauses_true(a, clause_views(clauses@)) ==> lit_true(a, lit)
            },
            undecided ==> exists|v: int| 0 <= v < vals.len() && (#[trigger] vals[v]) is None,
            unit is None && !undecided ==> forall|a: Assignment, j: int|
                #![trigger agrees(a, vals@), clauses[j]]
                agrees(a, vals@) && 0 <= j < i ==> clause_true(a, clauses[j]@),
        decreases clauses.len() - i,
    {
        match clause_status(vals, &clauses[i]) {
            ClauseStatus::Satisfied => {},
            ClauseStatus::Falsified => {
                proof {
                    assert forall|a: Assignment| #[trigger] agrees(a, vals@) implies !clauses_true(
                        a,
                        clause_views(clauses@),
                    ) by {
                        assert(clause_views(clauses@)[i as int] == clauses[i as int]@);
                    }
                }
                return Step::Dead;
            },
            ClauseStatus::Unit(lit) => {
                if unit.is_none() {
                    unit = Some(lit);
                    proof {
                        assert forall|a: Assignment| #[trigger]
                            agrees(a, vals@) && clauses_true(
                                a,
                                clause_views(clauses@),
                            ) implies lit_true(a, lit) by {
                            assert(clause_views(clauses@)[i as int] == clauses[i as int]@);
                        }
                    }
                }
            },
            ClauseStatus::Open => {
                undecided = true;
            },
        }
        i += 1;
    }
    if let Some(lit) = unit {
        return Step::Forced(lit);
    }
    let mut v: usize = 0;
    while v < vals.len()
        invariant
            0 <= v <= vals.len(),
            vals.len() <= u32::MAX,
            forall|w: int| 0 <= w < v ==> (#[trigger] vals[w]) is Some,
        decreases vals.len() - v,
    {
        if vals[v].is_none() {
            return Step::Branch(Lit { var: Var(v as u32), negated: false });
        }
        v += 1;
    }
    proof {
        assert forall|a: Assignment| #[trigger] agrees(a, vals@) implies clauses_true(
            a,
            clause_views(clauses@),
        ) by {
            assert forall|j: int| 0 <= j < clauses@.len() implies clause_true(
                a,
                #[trigger] clause_views(clauses@)[j],
            ) by {
                assert(clause_views(clauses@)[j] == clauses[j]@);
            }
        }
    }
    Step::Complete
}

/// `a` satisfies the clauses and the theory.
pub open spec fn solution(theory: Constraints, clauses: Seq<Seq<Lit>>, a: Assignment) -> bool {
    clauses_true(a, clauses) && theory.admits(a)
}

/// Some assignment satisfies the clauses and the theory.
pub open spec fn solvable(theory: Constraints, clauses: Seq<Seq<Lit>>) -> bool {
    exists|a: Assignment| solution(theory, clauses, a)
}

spec fn dead_end(theory: Constraints, clauses: Seq<Seq<Lit>>, vals: Seq<Option<bool>>) -> bool {
    forall|a: Assignment| #[trigger] agrees(a, vals) ==> !solution(theory, clauses, a)
}

/// The counters after so many decisions, propagated assignments and conflicts.
pub open spec fn sat_counted(
    counters: SatCounters,
    decisions: nat,
    propagations: nat,
    conflicts: nat,
) -> SatCounters {
    SatCounters {
        decisions: counted(counters.decisions, decisions as int),
        propagations: counted(counters.propagations, propagations as int),
        conflicts: counted(counters.conflicts, conflicts as int),
        ..counters
    }
}

/// A search has been counted. Where it fails the decisions form a tree in which both values of a
/// variable are tried, and the conflicts are its leaves. Where it succeeds there are at most as many
/// conflicts as decisions.
pub open spec fn search_counted(before: SatCounters, after: SatCounters, found: bool) -> bool {
    exists|d: nat, p: nat, c: nat|
        after == #[trigger] sat_counted(before, d, p, c) && if found {
            c <= d
        } else {
            d + 2 == 2 * c
        }
}

/// An assignment and the search below it have been counted.
spec fn branch_counted(before: SatCounters, after: SatCounters, found: bool, forced: bool) -> bool {
    exists|d: nat, p: nat, c: nat|
        after == #[trigger] sat_counted(before, d, p, c) && (forced || d >= 1) && if found {
            c <= d
        } else if forced {
            d + 2 == 2 * c
        } else {
            d + 1 == 2 * c
        }
}

/// Counts one assignment: a propagation where it is forced, a decision otherwise.
fn note_assignment(tally: &mut Counters, forced: bool)
    ensures
        final(tally).sat == if forced {
            sat_counted(old(tally).sat, 0, 1, 0)
        } else {
            sat_counted(old(tally).sat, 1, 0, 0)
        },
        final(tally).euf == old(tally).euf,
{
    if forced {
        if tally.sat.propagations < u64::MAX {
            record_sat_propagation(tally);
        }
    } else if tally.sat.decisions < u64::MAX {
        record_sat_decision(tally);
    }
}

/// Counts one conflict.
fn note_conflict(tally: &mut Counters)
    ensures
        final(tally).sat == sat_counted(old(tally).sat, 0, 0, 1),
        final(tally).euf == old(tally).euf,
{
    if tally.sat.conflicts < u64::MAX {
        record_sat_conflict(tally);
    }
}

/// Decides the remaining variables in every way until the clauses and the theory accept.
fn search<T: Theory>(
    theory: &mut T,
    vals: &mut Vec<Option<bool>>,
    clauses: &Vec<Vec<Lit>>,
    depth: usize,
    tally: &mut Counters,
) -> (found: bool)
    requires
        old(theory).searching(),
        old(theory).drained(),
        !old(theory).conflicted(),
        synchronized(*old(theory), old(vals)@),
        depth == old(theory).levels().len(),
        depth + unset(old(vals)@, old(vals).len() as int) <= usize::MAX,
        forall|i: int|
            0 <= i < clauses.len() ==> lits_below((#[trigger] clauses[i])@, old(vals).len() as nat),
        forall|var: Var| #[trigger] old(theory).constraints().binds(var) ==> var.0 < old(vals).len(),
        old(vals).len() <= u32::MAX,
    ensures
        search_counted(old(tally).sat, final(tally).sat, found),
        final(theory).searching(),
        final(theory).constraints() == old(theory).constraints(),
        final(theory).setting() == old(theory).setting(),
        found ==> solvable(old(theory).constraints(), clause_views(clauses@)),
        !found ==> {
            &&& dead_end(old(theory).constraints(), clause_views(clauses@), old(vals)@)
            &&& final(vals)@ == old(vals)@
            &&& final(theory).trail() == old(theory).trail()
            &&& final(theory).levels() == old(theory).levels()
            &&& final(theory).drained()
        },
    decreases unset(old(vals)@, old(vals).len() as int), 1nat,
{
    match next_step(vals, clauses) {
        Step::Dead => {
            note_conflict(tally);
            proof {
                assert(tally.sat == sat_counted(old(tally).sat, 0, 0, 1));
            }
            false
        },
        Step::Forced(lit) => {
            let found = try_literal(theory, vals, clauses, depth, lit, true, tally);
            proof {
                let v = lit.var.0 as int;
                if !found {
                    assert forall|a: Assignment| #[trigger] agrees(a, old(vals)@) implies !solution(
                        old(theory).constraints(),
                        clause_views(clauses@),
                        a,
                    ) by {
                        if solution(old(theory).constraints(), clause_views(clauses@), a) {
                            assert(lit_true(a, lit));
                            assert(agrees(a, old(vals)@.update(v, Some(!lit.negated))));
                        }
                    }
                }
            }
            found
        },
        Step::Branch(lit) => {
            if try_literal(theory, vals, clauses, depth, lit, false, tally) {
                return true;
            }
            let ghost once = tally.sat;
            if try_literal(theory, vals, clauses, depth, lit.negate(), false, tally) {
                proof {
                    lemma_both_counted(old(tally).sat, once, tally.sat, true);
                }
                return true;
            }
            proof {
                lemma_both_counted(old(tally).sat, once, tally.sat, false);
                let v = lit.var.0 as int;
                assert forall|a: Assignment| #[trigger] agrees(a, old(vals)@) implies !solution(
                    old(theory).constraints(),
                    clause_views(clauses@),
                    a,
                ) by {
                    if a(v) == !lit.negated {
                        assert(agrees(a, old(vals)@.update(v, Some(!lit.negated))));
                    } else {
                        assert(agrees(a, old(vals)@.update(v, Some(lit.negated))));
                    }
                }
            }
            false
        },
        Step::Complete => {
            let mut out: Vec<TheoryClause> = Vec::new();
            theory.final_check(&mut out);
            let conflict = any_conflict(&out);
            if conflict {
                note_conflict(tally);
            }
            proof {
                assert(tally.sat == sat_counted(
                    old(tally).sat,
                    0,
                    0,
                    if conflict {
                        1
                    } else {
                        0
                    },
                ));
                assert(out@.skip(0) =~= out@);
                let cs = clause_views(clauses@);
                if !conflict {
                    let a = choose|a: Assignment| #[trigger]
                        old(theory).constraints().admits(a) && lits_true(a, old(theory).trail());
                    let b = |v: int|
                        if 0 <= v < vals@.len() {
                            vals@[v]->0
                        } else {
                            a(v)
                        };
                    assert(agrees(b, vals@));
                    assert forall|var: Var| #[trigger] old(theory).constraints().binds(var) implies a(
                        var.0 as int,
                    ) == b(var.0 as int) by {
                        let v = var.0 as int;
                        assert(vals@[v] is Some);
                        let lit = Lit { var: Var(v as u32), negated: !vals@[v]->0 };
                        assert(old(theory).trail().contains(lit));
                        let i = choose|i: int|
                            0 <= i < old(theory).trail().len() && old(theory).trail()[i] == lit;
                        assert(lit_true(a, old(theory).trail()[i]));
                    }
                    old(theory).lemma_admits_bound(a, b);
                    assert(solution(old(theory).constraints(), cs, b));
                } else {
                    let i = choose|i: int|
                        0 <= i < out@.len() && (#[trigger] out@[i]).kind
                            == TheoryClauseKind::ConflictExplanation;
                    lemma_refuted_dead(*old(theory), cs, vals@, out@[i].lits@);
                }
            }
            !conflict
        },
    }
}

/// A clause that holds in the theory and is false under the trail leaves no solution.
proof fn lemma_refuted_dead<T: Theory>(
    theory: T,
    clauses: Seq<Seq<Lit>>,
    vals: Seq<Option<bool>>,
    clause: Seq<Lit>,
)
    requires
        synchronized(theory, vals),
        theory_valid(theory.constraints(), clause),
        refuted_by(clause, theory.trail()),
    ensures
        dead_end(theory.constraints(), clauses, vals),
{
    assert forall|a: Assignment| #[trigger] agrees(a, vals) implies !solution(
        theory.constraints(),
        clauses,
        a,
    ) by {
        if theory.constraints().admits(a) {
            let i = choose|i: int| 0 <= i < clause.len() && lit_true(a, #[trigger] clause[i]);
            let neg = clause[i].spec_negate();
            assert(theory.trail().contains(neg));
            let j = choose|j: int| 0 <= j < theory.trail().len() && theory.trail()[j] == neg;
            assert(theory.trail()[j].var.0 < vals.len());
            assert(vals[neg.var.0 as int] == Some(!neg.negated));
        }
    }
}

/// Returns whether some clause is a conflict explanation.
fn any_conflict(clauses: &Vec<TheoryClause>) -> (any: bool)
    ensures
        any == has_conflict(clauses@),
{
    let mut i: usize = 0;
    while i < clauses.len()
        invariant
            0 <= i <= clauses.len(),
            forall|j: int|
                0 <= j < i ==> (#[trigger] clauses[j]).kind != TheoryClauseKind::ConflictExplanation,
        decreases clauses.len() - i,
    {
        if clauses[i].kind == TheoryClauseKind::ConflictExplanation {
            return true;
        }
        i += 1;
    }
    false
}

/// Searches below the decision `lit`, and takes the decision back when nothing is found.
fn try_literal<T: Theory>(
    theory: &mut T,
    vals: &mut Vec<Option<bool>>,
    clauses: &Vec<Vec<Lit>>,
    depth: usize,
    lit: Lit,
    forced: bool,
    tally: &mut Counters,
) -> (found: bool)
    requires
        old(theory).searching(),
        old(theory).drained(),
        !old(theory).conflicted(),
        synchronized(*old(theory), old(vals)@),
        depth == old(theory).levels().len(),
        depth + unset(old(vals)@, old(vals).len() as int) <= usize::MAX,
        forall|i: int|
            0 <= i < clauses.len() ==> lits_below((#[trigger] clauses[i])@, old(vals).len() as nat),
        forall|var: Var| #[trigger] old(theory).constraints().binds(var) ==> var.0 < old(vals).len(),
        old(vals).len() <= u32::MAX,
        lit.var.0 < old(vals).len(),
        old(vals)[lit.var.0 as int] is None,
    ensures
        branch_counted(old(tally).sat, final(tally).sat, found, forced),
        final(theory).searching(),
        final(theory).constraints() == old(theory).constraints(),
        final(theory).setting() == old(theory).setting(),
        found ==> solvable(old(theory).constraints(), clause_views(clauses@)),
        !found ==> {
            &&& dead_end(
                old(theory).constraints(),
                clause_views(clauses@),
                old(vals)@.update(lit.var.0 as int, Some(!lit.negated)),
            )
            &&& final(vals)@ == old(vals)@
            &&& final(theory).trail() == old(theory).trail()
            &&& final(theory).levels() == old(theory).levels()
            &&& final(theory).drained()
            &&& !final(theory).conflicted()
        },
    decreases unset(old(vals)@, old(vals).len() as int), 0nat,
{
    let ghost t0 = *theory;
    let ghost cs = clause_views(clauses@);
    let ghost v = lit.var.0 as int;
    let ghost n = vals.len() as int;
    proof {
        lemma_unset_update(vals@, v, !lit.negated, n);
        if mentions_var(theory.trail(), lit.var) {
            let i = choose|i: int|
                0 <= i < theory.trail().len() && (#[trigger] theory.trail()[i]).var == lit.var;
            assert(vals@[theory.trail()[i].var.0 as int] is Some);
        }
    }
    note_assignment(tally, forced);
    let ghost decided = tally.sat;
    theory.notify_new_level();
    theory.notify_assignment(lit);
    let ghost t1 = *theory;
    let mut out: Vec<TheoryClause> = Vec::new();
    theory.drain_clauses(&mut out);
    let conflict = any_conflict(&out);
    proof {
        assert(out@.skip(0) =~= out@);
    }
    vals.set(lit.var.0 as usize, Some(!lit.negated));
    proof {
        lemma_unset_update(old(vals)@, v, !lit.negated, n);
        lemma_synchronized_push(t0, t1, old(vals)@, vals@, lit);
    }
    if conflict {
        note_conflict(tally);
        proof {
            assert(tally.sat == if forced {
                sat_counted(old(tally).sat, 0, 1, 1)
            } else {
                sat_counted(old(tally).sat, 1, 0, 1)
            });
            let i = choose|i: int|
                0 <= i < out@.len() && (#[trigger] out@[i]).kind
                    == TheoryClauseKind::ConflictExplanation;
            lemma_refuted_dead(t1, cs, vals@, out@[i].lits@);
        }
    } else {
        let ghost t2 = *theory;
        proof {
            assert(synchronized(t2, vals@));
        }
        if search(theory, vals, clauses, depth + 1, tally) {
            proof {
                lemma_below_counted(old(tally).sat, decided, tally.sat, true, forced);
            }
            return true;
        }
        proof {
            lemma_below_counted(old(tally).sat, decided, tally.sat, false, forced);
        }
    }
    theory.notify_backtrack(depth);
    proof {
        assert(theory.trail() =~= t0.trail());
        assert(theory.levels() =~= t0.levels());
        assert(vals@.update(v, None) =~= old(vals)@);
    }
    vals.set(lit.var.0 as usize, None);
    false
}

proof fn lemma_below_counted(
    before: SatCounters,
    assigned: SatCounters,
    after: SatCounters,
    found: bool,
    forced: bool,
)
    requires
        assigned == if forced {
            sat_counted(before, 0, 1, 0)
        } else {
            sat_counted(before, 1, 0, 0)
        },
        search_counted(assigned, after, found),
    ensures
        branch_counted(before, after, found, forced),
{
    let (d, p, c) = choose|d: nat, p: nat, c: nat|
        after == #[trigger] sat_counted(assigned, d, p, c) && if found {
            c <= d
        } else {
            d + 2 == 2 * c
        };
    if forced {
        assert(after == sat_counted(before, d, p + 1, c));
    } else {
        assert(after == sat_counted(before, d + 1, p, c));
    }
}

proof fn lemma_both_counted(
    before: SatCounters,
    once: SatCounters,
    after: SatCounters,
    found: bool,
)
    requires
        branch_counted(before, once, false, false),
        branch_counted(once, after, found, false),
    ensures
        search_counted(before, after, found),
{
    let (d, p, c) = choose|d: nat, p: nat, c: nat|
        once == #[trigger] sat_counted(before, d, p, c) && d >= 1 && d + 1 == 2 * c;
    let (e, q, f) = choose|e: nat, q: nat, f: nat|
        after == #[trigger] sat_counted(once, e, q, f) && e >= 1 && if found {
            f <= e
        } else {
            e + 1 == 2 * f
        };
    assert(after == sat_counted(before, d + e, p + q, c + f));
}

/// Assigning one variable on both sides keeps the values and the trail in step.
proof fn lemma_synchronized_push<T: Theory>(
    t0: T,
    t1: T,
    vals: Seq<Option<bool>>,
    more: Seq<Option<bool>>,
    lit: Lit,
)
    requires
        synchronized(t0, vals),
        t0.constraints() == t1.constraints(),
        vals.len() <= u32::MAX,
        lit.var.0 < vals.len(),
        vals[lit.var.0 as int] is None,
        more == vals.update(lit.var.0 as int, Some(!lit.negated)),
        t1.trail() == if t0.constraints().binds(lit.var) {
            t0.trail().push(lit)
        } else {
            t0.trail()
        },
    ensures
        synchronized(t1, more),
{
    assert forall|i: int| 0 <= i < t1.trail().len() implies {
        let l = #[trigger] t1.trail()[i];
        l.var.0 < more.len() && more[l.var.0 as int] == Some(!l.negated)
    } by {
        if i < t0.trail().len() {
            assert(t0.trail()[i] == t1.trail()[i]);
        }
    }
    assert forall|v: int|
        0 <= v < more.len() && (#[trigger] more[v]) is Some && t1.constraints().binds(
            Var(v as u32),
        ) implies t1.trail().contains(Lit { var: Var(v as u32), negated: !more[v]->0 }) by {
        assert(t0.constraints().binds(Var(v as u32)));
        let l = Lit { var: Var(v as u32), negated: !more[v]->0 };
        if v == lit.var.0 {
            assert(t1.trail()[t0.trail().len() as int] == l);
        } else {
            assert(vals[v] is Some);
            assert(t0.trail().contains(l));
            let i = choose|i: int| 0 <= i < t0.trail().len() && t0.trail()[i] == l;
            assert(t1.trail()[i] == l);
        }
    }
}

/// At most all values are unset.
pub proof fn lemma_unset_all(vals: Seq<Option<bool>>, n: int)
    requires
        0 <= n <= vals.len(),
    ensures
        unset(vals, n) <= n,
    decreases n,
{
    if n > 0 {
        lemma_unset_all(vals, n - 1);
    }
}

/// Returns a copy of a literal list.
fn copy_lits(lits: &[Lit]) -> (copy: Vec<Lit>)
    ensures
        copy@ == lits@,
{
    let mut copy: Vec<Lit> = Vec::new();
    let mut i: usize = 0;
    while i < lits.len()
        invariant
            0 <= i <= lits.len(),
            copy@ == lits@.take(i as int),
        decreases lits.len() - i,
    {
        copy.push(lits[i]);
        proof {
            assert(lits@.take(i as int + 1) =~= lits@.take(i as int).push(lits@[i as int]));
        }
        i += 1;
    }
    assert(lits@.take(lits@.len() as int) =~= lits@);
    copy
}

/// Appends copies of all clauses.
fn copy_clauses(clauses: &Vec<Vec<Lit>>, out: &mut Vec<Vec<Lit>>)
    ensures
        clause_views(final(out)@) == clause_views(old(out)@) + clause_views(clauses@),
{
    let mut i: usize = 0;
    proof {
        assert(clause_views(old(out)@) + clause_views(clauses@).take(0) =~= clause_views(
            old(out)@,
        ));
    }
    while i < clauses.len()
        invariant
            0 <= i <= clauses.len(),
            clause_views(out@) == clause_views(old(out)@) + clause_views(clauses@).take(i as int),
        decreases clauses.len() - i,
    {
        let ghost before = out@;
        let copy = copy_lits(clauses[i].as_slice());
        out.push(copy);
        proof {
            assert(clause_views(out@) =~= clause_views(before).push(copy@));
            assert(clause_views(clauses@).take(i as int + 1) =~= clause_views(clauses@).take(
                i as int,
            ).push(clauses@[i as int]@));
        }
        i += 1;
    }
    proof {
        assert(clause_views(clauses@).take(i as int) =~= clause_views(clauses@));
    }
}

/// Returns whether a literal and its negation both occur.
fn is_tautology(lits: &[Lit]) -> (found: bool)
    ensures
        found == tautology(lits@),
{
    let mut i: usize = 0;
    while i < lits.len()
        invariant
            0 <= i <= lits.len(),
            forall|x: int, y: int|
                0 <= x < i && 0 <= y < lits.len() ==> #[trigger] lits[x] != (
                #[trigger] lits[y]).spec_negate(),
        decreases lits.len() - i,
    {
        let mut j: usize = 0;
        while j < lits.len()
            invariant
                0 <= i < lits.len(),
                0 <= j <= lits.len(),
                forall|y: int|
                    0 <= y < j ==> lits[i as int] != (#[trigger] lits[y]).spec_negate(),
            decreases lits.len() - j,
        {
            if lits[i] == lits[j].negate() {
                return true;
            }
            j += 1;
        }
        i += 1;
    }
    false
}

/// The number of clauses with more than one literal.
pub open spec fn long_clauses(clauses: Seq<Seq<Lit>>) -> nat
    decreases clauses.len(),
{
    if clauses.len() == 0 {
        0
    } else {
        long_clauses(clauses.drop_last()) + if clauses.last().len() > 1 {
            1nat
        } else {
            0
        }
    }
}

/// The number of literals in all clauses.
pub open spec fn clause_words(clauses: Seq<Seq<Lit>>) -> nat
    decreases clauses.len(),
{
    if clauses.len() == 0 {
        0
    } else {
        clause_words(clauses.drop_last()) + clauses.last().len()
    }
}

/// Counts the long clauses and the literals of a list of clauses; a count that does not fit stays at
/// the largest value.
fn store_size(clauses: &Vec<Vec<Lit>>) -> (size: (u64, u64))
    ensures
        size.0 == counted(0, long_clauses(clause_views(clauses@)) as int),
        size.1 == counted(0, clause_words(clause_views(clauses@)) as int),
{
    let ghost views = clause_views(clauses@);
    let mut long: u64 = 0;
    let mut words: u64 = 0;
    let mut i: usize = 0;
    while i < clauses.len()
        invariant
            0 <= i <= clauses@.len(),
            views == clause_views(clauses@),
            long == counted(0, long_clauses(views.take(i as int)) as int),
            words == counted(0, clause_words(views.take(i as int)) as int),
        decreases clauses@.len() - i,
    {
        proof {
            let more = views.take(i as int + 1);
            assert(more.drop_last() =~= views.take(i as int));
            assert(more.last() == clauses@[i as int]@);
        }
        if clauses[i].len() > 1 {
            long = long.saturating_add(1);
        }
        words = words.saturating_add(clauses[i].len() as u64);
        i += 1;
    }
    proof {
        assert(views.take(views.len() as int) =~= views);
    }
    (long, words)
}

impl Solver {
    /// The events counted since the counters were last taken.
    pub closed spec fn counters(&self) -> SatCounters {
        self.tally.sat
    }

    /// The number of allocated variables.
    pub closed spec fn var_count(&self) -> nat {
        self.num_vars as nat
    }

    /// The clauses that no scope holds.
    pub closed spec fn rooted(&self) -> Seq<Seq<Lit>> {
        clause_views(self.permanent@)
    }

    /// The clauses of the outermost and all open scopes, oldest first.
    pub closed spec fn scoped(&self) -> Seq<Seq<Lit>> {
        clause_views(self.clauses@)
    }

    /// All active clauses.
    pub open spec fn active(&self) -> Seq<Seq<Lit>> {
        self.rooted() + self.scoped()
    }

    /// The number of clauses at the start of each open scope.
    pub closed spec fn scope_starts(&self) -> Seq<nat> {
        self.scopes@.map_values(|n: usize| n as nat)
    }

    /// Clauses use allocated variables only, and scopes nest.
    pub closed spec fn wf(&self) -> bool {
        &&& forall|i: int|
            0 <= i < self.clauses.len() ==> lits_below(
                (#[trigger] self.clauses[i])@,
                self.num_vars as nat,
            )
        &&& forall|i: int|
            0 <= i < self.permanent.len() ==> lits_below(
                (#[trigger] self.permanent[i])@,
                self.num_vars as nat,
            )
        &&& forall|i: int| 0 <= i < self.scopes.len() ==> (#[trigger] self.scopes[i]) <= self.clauses.len()
        &&& forall|i: int, j: int| 0 <= i <= j < self.scopes.len() ==> self.scopes[i] <= self.scopes[j]
    }

    /// What well-formedness says of clauses and scopes.
    pub proof fn lemma_wf(&self)
        requires
            self.wf(),
        ensures
            self.var_count() <= u32::MAX,
            forall|i: int|
                0 <= i < self.rooted().len() ==> lits_below(
                    #[trigger] self.rooted()[i],
                    self.var_count(),
                ),
            forall|i: int|
                0 <= i < self.scoped().len() ==> lits_below(
                    #[trigger] self.scoped()[i],
                    self.var_count(),
                ),
            forall|i: int|
                0 <= i < self.scope_starts().len() ==> (#[trigger] self.scope_starts()[i])
                    <= self.scoped().len(),
            forall|i: int, j: int|
                0 <= i <= j < self.scope_starts().len() ==> self.scope_starts()[i]
                    <= self.scope_starts()[j],
    {
        assert forall|i: int| 0 <= i < self.scoped().len() implies lits_below(
            #[trigger] self.scoped()[i],
            self.var_count(),
        ) by {
            assert(self.scoped()[i] == self.clauses[i]@);
        }
        assert forall|i: int| 0 <= i < self.rooted().len() implies lits_below(
            #[trigger] self.rooted()[i],
            self.var_count(),
        ) by {
            assert(self.rooted()[i] == self.permanent[i]@);
        }
        assert forall|i: int| 0 <= i < self.scope_starts().len() implies (
        #[trigger] self.scope_starts()[i]) <= self.scoped().len() by {
            assert(self.scopes[i] <= self.clauses.len());
        }
    }

    /// Creates a solver without variables or clauses.
    pub fn new() -> (solver: Self)
        ensures
            solver.wf(),
            solver.var_count() == 0,
            solver.rooted() == Seq::<Seq<Lit>>::empty(),
            solver.scoped() == Seq::<Seq<Lit>>::empty(),
            solver.scope_starts() == Seq::<nat>::empty(),
            forall|field: SatCounter| #[trigger] solver.counters().get(field) == 0,
    {
        let solver = Self {
            num_vars: 0,
            permanent: Vec::new(),
            clauses: Vec::new(),
            scopes: Vec::new(),
            tally: Counters::zero(),
        };
        proof {
            assert(solver.rooted() =~= Seq::<Seq<Lit>>::empty());
            assert(solver.scoped() =~= Seq::<Seq<Lit>>::empty());
            assert(solver.scope_starts() =~= Seq::<nat>::empty());
        }
        solver
    }

    /// Returns the number of allocated variables.
    pub fn num_vars(&self) -> (n: u32)
        ensures
            n == self.var_count(),
    {
        self.num_vars
    }

    /// Returns the number of active clauses.
    pub fn num_clauses(&self) -> (n: Option<usize>)
        ensures
            n matches Some(n) ==> n == self.active().len(),
            n is None ==> self.active().len() > usize::MAX,
    {
        self.permanent.len().checked_add(self.clauses.len())
    }

    /// Allocates one fresh variable.
    pub fn new_var(&mut self) -> (var: Var)
        requires
            old(self).wf(),
            old(self).var_count() < u32::MAX,
        ensures
            final(self).counters() == old(self).counters(),
            final(self).wf(),
            var.0 == old(self).var_count(),
            final(self).var_count() == old(self).var_count() + 1,
            final(self).rooted() == old(self).rooted(),
            final(self).scoped() == old(self).scoped(),
            final(self).scope_starts() == old(self).scope_starts(),
    {
        let var = Var(self.num_vars);
        self.num_vars = self.num_vars + 1;
        var
    }

    /// Adds one clause to the innermost scope.
    pub fn add_clause(&mut self, lits: &[Lit]) -> (result: AddClauseResult)
        requires
            old(self).wf(),
            lits_below(lits@, old(self).var_count()),
        ensures
            final(self).counters() == old(self).counters(),
            final(self).wf(),
            final(self).var_count() == old(self).var_count(),
            final(self).scope_starts() == old(self).scope_starts(),
            final(self).rooted() == old(self).rooted(),
            result == if tautology(lits@) {
                AddClauseResult::Satisfied
            } else if lits@.len() == 0 {
                AddClauseResult::Inconsistent
            } else {
                AddClauseResult::Added
            },
            final(self).scoped() == if tautology(lits@) {
                old(self).scoped()
            } else {
                old(self).scoped().push(lits@)
            },
    {
        if is_tautology(lits) {
            return AddClauseResult::Satisfied;
        }
        let copy = copy_lits(lits);
        self.clauses.push(copy);
        proof {
            assert(self.scoped() =~= old(self).scoped().push(lits@));
        }
        if lits.len() == 0 {
            AddClauseResult::Inconsistent
        } else {
            AddClauseResult::Added
        }
    }

    /// Adds one clause that no scope holds.
    pub fn add_permanent_clause(&mut self, lits: &[Lit])
        requires
            old(self).wf(),
            lits_below(lits@, old(self).var_count()),
        ensures
            final(self).counters() == old(self).counters(),
            final(self).wf(),
            final(self).var_count() == old(self).var_count(),
            final(self).scope_starts() == old(self).scope_starts(),
            final(self).scoped() == old(self).scoped(),
            final(self).rooted() == old(self).rooted().push(lits@),
    {
        let copy = copy_lits(lits);
        self.permanent.push(copy);
        proof {
            assert(self.rooted() =~= old(self).rooted().push(lits@));
        }
    }

    /// Opens a new scope.
    pub fn push(&mut self)
        requires
            old(self).wf(),
        ensures
            final(self).counters() == old(self).counters(),
            final(self).wf(),
            final(self).var_count() == old(self).var_count(),
            final(self).rooted() == old(self).rooted(),
            final(self).scoped() == old(self).scoped(),
            final(self).scope_starts() == old(self).scope_starts().push(old(self).scoped().len()),
    {
        self.scopes.push(self.clauses.len());
        proof {
            assert(self.scope_starts() =~= old(self).scope_starts().push(
                old(self).scoped().len(),
            ));
        }
    }

    /// Closes the innermost `levels` scopes together with their clauses.
    pub fn pop(&mut self, levels: usize) -> (result: Result<(), PopError>)
        requires
            old(self).wf(),
        ensures
            final(self).counters() == old(self).counters(),
            final(self).wf(),
            final(self).var_count() == old(self).var_count(),
            final(self).rooted() == old(self).rooted(),
            result is Ok <==> levels <= old(self).scope_starts().len(),
            result is Err ==> *final(self) == *old(self),
            result is Ok ==> {
                let kept = old(self).scope_starts().len() - levels;
                &&& final(self).scope_starts() == old(self).scope_starts().take(kept)
                &&& final(self).scoped() == if levels == 0 {
                    old(self).scoped()
                } else {
                    old(self).scoped().take(old(self).scope_starts()[kept] as int)
                }
            },
    {
        if levels > self.scopes.len() {
            return Err(PopError::ScopeUnderflow);
        }
        if levels > 0 {
            let kept = self.scopes.len() - levels;
            let start = self.scopes[kept];
            self.clauses.truncate(start);
            self.scopes.truncate(kept);
            proof {
                assert(self.scoped() =~= old(self).scoped().take(start as int));
                assert(self.scope_starts() =~= old(self).scope_starts().take(kept as int));
                assert forall|i: int| 0 <= i < self.scopes.len() implies (#[trigger] self.scopes[i])
                    <= self.clauses.len() by {
                    assert(old(self).scopes[i] <= old(self).scopes[kept as int]);
                }
                assert forall|i: int| 0 <= i < self.clauses.len() implies lits_below(
                    (#[trigger] self.clauses[i])@,
                    self.num_vars as nat,
                ) by {
                    assert(old(self).clauses[i] == self.clauses[i]);
                }
            }
        } else {
            proof {
                assert(self.scope_starts().take(self.scope_starts().len() as int)
                    =~= self.scope_starts());
            }
        }
        Ok(())
    }

    /// Returns the clauses of all scopes and one clause for every assumption.
    pub fn active_clauses(&self, assumptions: &[Lit]) -> (clauses: Vec<Vec<Lit>>)
        requires
            self.wf(),
            lits_below(assumptions@, self.var_count()),
        ensures
            forall|j: int|
                0 <= j < clauses.len() ==> lits_below((#[trigger] clauses[j])@, self.var_count()),
            forall|a: Assignment| #[trigger]
                clauses_true(a, clause_views(clauses@)) <==> clauses_true(a, self.active())
                    && lits_true(a, assumptions@),
            forall|a: Assignment| #[trigger]
                clauses_true(a, self.active()) <==> clauses_true(a, self.rooted()) && clauses_true(
                    a,
                    self.scoped(),
                ),
    {
        let mut clauses: Vec<Vec<Lit>> = Vec::new();
        copy_clauses(&self.permanent, &mut clauses);
        copy_clauses(&self.clauses, &mut clauses);
        proof {
            assert(clause_views(clauses@) =~= self.active());
        }
        let ghost active = clauses@;
        let mut k: usize = 0;
        while k < assumptions.len()
            invariant
                0 <= k <= assumptions.len(),
                self.wf(),
                clause_views(active) == self.active(),
                clauses.len() == active.len() + k,
                forall|j: int| 0 <= j < active.len() ==> (#[trigger] clauses[j])@ == active[j]@,
                forall|j: int|
                    active.len() <= j < clauses.len() ==> (#[trigger] clauses[j])@ == seq![
                        assumptions[j - active.len()],
                    ],
            decreases assumptions.len() - k,
        {
            let mut unit: Vec<Lit> = Vec::new();
            unit.push(assumptions[k]);
            proof {
                assert(unit@ =~= seq![assumptions[k as int]]);
            }
            clauses.push(unit);
            k += 1;
        }
        proof {
            assert forall|j: int| 0 <= j < clauses.len() implies lits_below(
                (#[trigger] clauses[j])@,
                self.var_count(),
            ) by {
                if j < active.len() {
                    assert(clauses[j]@ == active[j]@);
                    assert(clause_views(active)[j] == active[j]@);
                    self.lemma_wf();
                    if j < self.rooted().len() {
                        assert(self.active()[j] == self.rooted()[j]);
                    } else {
                        assert(self.active()[j] == self.scoped()[j - self.rooted().len()]);
                    }
                } else {
                    assert(assumptions[j - active.len()].var.0 < self.var_count());
                }
            }
            let all = clause_views(clauses@);
            assert forall|a: Assignment| #[trigger] clauses_true(a, all) <==> clauses_true(
                a,
                self.active(),
            ) && lits_true(a, assumptions@) by {
                lemma_clauses_split(a, all, self.active(), assumptions@);
            }
            assert forall|a: Assignment| #[trigger] clauses_true(a, self.active())
                <==> clauses_true(a, self.rooted()) && clauses_true(a, self.scoped()) by {
                lemma_clauses_join(a, self.rooted(), self.scoped());
            }
        }
        clauses
    }

    /// Hands out the counters and starts them again at zero.
    pub fn take_counters(&mut self) -> (counters: SatCounters)
        requires
            old(self).wf(),
        ensures
            counters == old(self).counters(),
            forall|field: SatCounter| #[trigger] final(self).counters().get(field) == 0,
            final(self).wf(),
            final(self).var_count() == old(self).var_count(),
            final(self).rooted() == old(self).rooted(),
            final(self).scoped() == old(self).scoped(),
            final(self).scope_starts() == old(self).scope_starts(),
    {
        let counters = self.tally.sat;
        self.tally = Counters::zero();
        counters
    }

    /// Captures the current gauges for one telemetry sample boundary.
    ///
    /// A search keeps its assignment to itself, so between searches nothing is decided or assigned.
    /// Clauses are looked through without watch lists, none is learned, and the words of a closed
    /// scope are given back at once.
    pub fn telemetry_gauges(&self) -> (gauges: SatGauges)
        ensures
            gauges.live_irredundant_clauses == counted(
                0,
                (long_clauses(self.rooted()) + long_clauses(self.scoped())) as int,
            ),
            gauges.clause_words == counted(
                0,
                (clause_words(self.rooted()) + clause_words(self.scoped())) as int,
            ),
            gauges == (SatGauges {
                decision_level: 0,
                assigned_vars: 0,
                trail_len: 0,
                pending_propagations: 0,
                live_learnt_clauses: 0,
                watcher_entries: 0,
                wasted_clause_words: 0,
                ..gauges
            }),
    {
        let (permanent_long, permanent_words) = store_size(&self.permanent);
        let (scoped_long, scoped_words) = store_size(&self.clauses);
        SatGauges {
            decision_level: 0,
            assigned_vars: 0,
            trail_len: 0,
            pending_propagations: 0,
            live_irredundant_clauses: permanent_long.saturating_add(scoped_long),
            live_learnt_clauses: 0,
            watcher_entries: 0,
            clause_words: permanent_words.saturating_add(scoped_words),
            wasted_clause_words: 0,
        }
    }

    /// Searches for an assignment that satisfies the active clauses, the assumptions and the theory.
    pub fn solve_with_assumptions<T: Theory>(&mut self, assumptions: &[Lit], theory: &mut T) -> (result:
        SatResult)
        requires
            old(self).wf(),
            old(theory).inv(),
            lits_below(assumptions@, old(self).var_count()),
            forall|var: Var| #[trigger] old(theory).constraints().binds(var) ==> var.0 < old(self).var_count(),
        ensures
            final(self).wf(),
            final(self).var_count() == old(self).var_count(),
            final(self).rooted() == old(self).rooted(),
            final(self).scoped() == old(self).scoped(),
            final(self).scope_starts() == old(self).scope_starts(),
            search_counted(
                old(self).counters(),
                final(self).counters(),
                result == SatResult::Sat,
            ),
            final(theory).inv(),
            final(theory).constraints() == old(theory).constraints(),
            final(theory).setting() == old(theory).setting(),
            result == SatResult::Sat <==> exists|a: Assignment|
                {
                    &&& #[trigger] clauses_true(a, old(self).active())
                    &&& lits_true(a, assumptions@)
                    &&& old(theory).constraints().admits(a)
                },
    {
        let clauses = self.active_clauses(assumptions);
        let mut vals: Vec<Option<bool>> = Vec::new();
        vals.resize(self.num_vars as usize, None);
        theory.notify_search_start();
        let ghost t1 = *theory;
        proof {
            lemma_unset_all(vals@, vals.len() as int);
            assert(synchronized(t1, vals@));
        }
        let found = search(theory, &mut vals, &clauses, 0, &mut self.tally);
        proof {
            theory.lemma_searching();
            let all = clause_views(clauses@);
            let active = old(self).active();
            assert(self.active() == active);
            if found {
                let a = choose|a: Assignment| solution(old(theory).constraints(), all, a);
                assert(clauses_true(a, active));
            } else {
                assert forall|a: Assignment| !(#[trigger] clauses_true(a, active)
                    && lits_true(a, assumptions@) && old(theory).constraints().admits(a)) by {
                    assert(agrees(a, vals@));
                    assert(!solution(t1.constraints(), all, a));
                }
            }
        }
        if found {
            SatResult::Sat
        } else {
            SatResult::Unsat
        }
    }
}

proof fn lemma_clauses_join(a: Assignment, x: Seq<Seq<Lit>>, y: Seq<Seq<Lit>>)
    ensures
        clauses_true(a, x + y) <==> clauses_true(a, x) && clauses_true(a, y),
{
    let all = x + y;
    if clauses_true(a, all) {
        assert forall|i: int| 0 <= i < x.len() implies clause_true(a, #[trigger] x[i]) by {
            assert(clause_true(a, all[i]));
        }
        assert forall|i: int| 0 <= i < y.len() implies clause_true(a, #[trigger] y[i]) by {
            assert(all[x.len() + i] == y[i]);
            assert(clause_true(a, all[x.len() + i]));
        }
    }
    if clauses_true(a, x) && clauses_true(a, y) {
        assert forall|i: int| 0 <= i < all.len() implies clause_true(a, #[trigger] all[i]) by {
            if i < x.len() {
                assert(clause_true(a, x[i]));
            } else {
                assert(clause_true(a, y[i - x.len()]));
            }
        }
    }
}

proof fn lemma_clauses_split(
    a: Assignment,
    all: Seq<Seq<Lit>>,
    clauses: Seq<Seq<Lit>>,
    lits: Seq<Lit>,
)
    requires
        all.len() == clauses.len() + lits.len(),
        forall|j: int| 0 <= j < clauses.len() ==> (#[trigger] all[j]) == clauses[j],
        forall|j: int|
            clauses.len() <= j < all.len() ==> (#[trigger] all[j]) == seq![lits[j - clauses.len()]],
    ensures
        clauses_true(a, all) <==> clauses_true(a, clauses) && lits_true(a, lits),
{
    if clauses_true(a, all) {
        assert forall|i: int| 0 <= i < clauses.len() implies clause_true(a, #[trigger] clauses[i]) by {
            assert(clause_true(a, all[i]));
        }
        assert forall|i: int| 0 <= i < lits.len() implies lit_true(a, #[trigger] lits[i]) by {
            let c = all[clauses.len() + i];
            assert(clause_true(a, c));
            let k = choose|k: int| 0 <= k < c.len() && lit_true(a, #[trigger] c[k]);
            assert(c[k] == lits[i]);
        }
    }
    if clauses_true(a, clauses) && lits_true(a, lits) {
        assert forall|i: int| 0 <= i < all.len() implies clause_true(a, #[trigger] all[i]) by {
            if i < clauses.len() {
                assert(clause_true(a, clauses[i]));
            } else {
                assert(lit_true(a, lits[i - clauses.len()]));
                assert(all[i][0] == lits[i - clauses.len()]);
            }
        }
    }
}

} // verus!
