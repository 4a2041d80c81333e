//! Persistent clauses, theory atoms and terms reused across repeated checks.

use crate::euf::table::{table_entries, table_get, table_insert, table_new, IndexTable};
use crate::euf_core::{
    lemma_term_id_injective, lemma_term_id_range, EufSolver, FunId, TermId,
};
use crate::lower::denote::{Claim, Model, Quantity};
use crate::lower::ground::{same_below, Ground, Switches};
use crate::lower::nodes::{lemma_node_same, node_ok, node_true, nodes_ok, NodeView};
use crate::lower::search::{keys_in_range, IncrementalSolver, TheoryKey, TheoryRelation};
use crate::qfuf::connectives::{
    build_and_clauses, build_or_clauses, lemma_and_clauses, lemma_clauses_in_range,
    lemma_lits_below, lemma_lits_push, lemma_or_clauses,
};
use crate::sat::{
    clause_true, clause_views, clauses_true, lit_true, lits_below, lits_true, Assignment, Lit, Var,
};
use crate::semantics::{atom_holds, value, Interp, TermView};
use vstd::prelude::*;

verus! {

/// Why an expression was not lowered.
pub enum Fault {
    /// The expression is not accepted, for this reason.
    Text(String),
    /// A handle space is used up.
    Full(String),
}

/// Either a deterministic Boolean shortcut or an encoded literal.
#[derive(Debug, Clone, Copy, PartialEq, Eq, Structural)]
pub enum BoolValue {
    /// Definite truth value that needs no clause.
    Const(bool),
    /// Literal whose value depends on the assignment.
    Lit(Lit),
}

/// The truth value of an encoded formula.
pub open spec fn value_true(a: Assignment, value: BoolValue) -> bool {
    match value {
        BoolValue::Const(b) => b,
        BoolValue::Lit(lit) => lit_true(a, lit),
    }
}

/// The literal of the value uses an allocated variable.
pub open spec fn value_ok(value: BoolValue, vars: nat) -> bool {
    value matches BoolValue::Lit(lit) ==> lit.var.0 < vars
}

/// All values use allocated variables.
pub open spec fn values_ok(values: Seq<BoolValue>, vars: nat) -> bool {
    forall|k: int| 0 <= k < values.len() ==> value_ok(#[trigger] values[k], vars)
}

/// All values are true.
pub open spec fn all_true(a: Assignment, values: Seq<BoolValue>) -> bool {
    forall|k: int| 0 <= k < values.len() ==> value_true(a, #[trigger] values[k])
}

/// Some value is true.
pub open spec fn any_true(a: Assignment, values: Seq<BoolValue>) -> bool {
    exists|k: int| 0 <= k < values.len() && value_true(a, #[trigger] values[k])
}

impl BoolValue {
    /// Returns the negation.
    pub fn not(self) -> (value: Self)
        ensures
            forall|a: Assignment| #[trigger] value_true(a, value) == !value_true(a, self),
            forall|vars: nat| #[trigger] value_ok(value, vars) == value_ok(self, vars),
    {
        match self {
            BoolValue::Const(b) => BoolValue::Const(!b),
            BoolValue::Lit(lit) => BoolValue::Lit(lit.negate()),
        }
    }

    /// Returns the literal, if the value is one.
    pub fn as_lit(self) -> (lit: Option<Lit>)
        ensures
            lit == match self {
                BoolValue::Const(_) => None::<Lit>,
                BoolValue::Lit(lit) => Some(lit),
            },
    {
        match self {
            BoolValue::Const(_) => None,
            BoolValue::Lit(lit) => Some(lit),
        }
    }
}

/// Wherever the definitions hold, the value is that of formula `i`.
pub open spec fn value_matches(ground: Ground, nodes: Seq<NodeView>, value: BoolValue, i: int) -> bool {
    &&& value_ok(value, ground.vars)
    &&& forall|model: Model, m: Interp, a: Assignment| #[trigger]
        ground.good(model, m, a) ==> value_true(a, value) == node_true(nodes, ground.terms, m, a, i)
}

/// Every value is that of its formula.
pub open spec fn values_match(
    ground: Ground,
    nodes: Seq<NodeView>,
    values: Seq<BoolValue>,
    ids: Seq<int>,
) -> bool {
    &&& values.len() == ids.len()
    &&& forall|k: int|
        0 <= k < values.len() ==> value_matches(ground, nodes, #[trigger] values[k], ids[k])
}

/// Wherever the definitions hold, the value is that of a claim.
pub open spec fn value_claims(ground: Ground, value: BoolValue, p: Claim) -> bool {
    &&& value_ok(value, ground.vars)
    &&& forall|model: Model, m: Interp, a: Assignment| #[trigger]
        ground.good(model, m, a) ==> value_true(a, value) == p(model)
}

/// Wherever the definitions hold, formula `i` says what `p` says.
pub open spec fn node_denotes(ground: Ground, nodes: Seq<NodeView>, i: int, p: Claim) -> bool {
    &&& 0 <= i < nodes.len()
    &&& forall|model: Model, m: Interp, a: Assignment| #[trigger]
        ground.good(model, m, a) ==> node_true(nodes, ground.terms, m, a, i) == p(model)
}

/// `more` starts with `nodes`.
pub open spec fn nodes_kept(nodes: Seq<NodeView>, more: Seq<NodeView>) -> bool {
    &&& nodes.len() <= more.len()
    &&& forall|j: int| 0 <= j < nodes.len() ==> #[trigger] more[j] == nodes[j]
}

/// Formulas keep their meaning when ground and formulas grow.
pub proof fn lemma_node_grow(
    ground: Ground,
    new: Ground,
    nodes: Seq<NodeView>,
    more: Seq<NodeView>,
    model: Model,
    m: Interp,
    a: Assignment,
    i: int,
)
    requires
        ground.ok(),
        new.ok(),
        ground.extends_to(new),
        nodes_ok(nodes, ground.vars, ground.terms.len()),
        nodes_kept(nodes, more),
        0 <= i < nodes.len(),
    ensures
        node_true(more, new.terms, m, a, i) == node_true(nodes, ground.terms, m, a, i),
{
    assert forall|t: int| 0 <= t < ground.terms.len() implies #[trigger] value(new.terms, m, t)
        == value(ground.terms, m, t) by {
        ground.lemma_value_same(new, m, t);
    }
    lemma_node_same(nodes, more, ground.terms, new.terms, m, a, ground.vars, i);
}

/// Meanings of formulas stay when ground and formulas grow.
pub proof fn lemma_denotes_grow(
    ground: Ground,
    new: Ground,
    nodes: Seq<NodeView>,
    more: Seq<NodeView>,
    i: int,
    p: Claim,
)
    requires
        ground.ok(),
        new.ok(),
        ground.extends_to(new),
        nodes_ok(nodes, ground.vars, ground.terms.len()),
        nodes_kept(nodes, more),
        node_denotes(ground, nodes, i, p),
    ensures
        node_denotes(new, more, i, p),
{
    assert forall|model: Model, m: Interp, a: Assignment| #[trigger] new.good(
        model,
        m,
        a,
    ) implies node_true(more, new.terms, m, a, i) == p(model) by {
        ground.lemma_good_smaller(new, model, m, a);
        lemma_node_grow(ground, new, nodes, more, model, m, a, i);
    }
}

/// Values go on matching when ground and formulas grow.
pub proof fn lemma_matches_grow(
    ground: Ground,
    new: Ground,
    nodes: Seq<NodeView>,
    more: Seq<NodeView>,
    value: BoolValue,
    i: int,
)
    requires
        ground.ok(),
        new.ok(),
        ground.extends_to(new),
        nodes_ok(nodes, ground.vars, ground.terms.len()),
        nodes_kept(nodes, more),
        0 <= i < nodes.len(),
        value_matches(ground, nodes, value, i),
    ensures
        value_matches(new, more, value, i),
{
    assert forall|model: Model, m: Interp, a: Assignment| #[trigger] new.good(
        model,
        m,
        a,
    ) implies value_true(a, value) == node_true(more, new.terms, m, a, i) by {
        ground.lemma_good_smaller(new, model, m, a);
        lemma_node_grow(ground, new, nodes, more, model, m, a, i);
    }
}

/// The key of a relation in the table of theory variables.
pub open spec fn relation_key(key: TheoryKey) -> Seq<u32> {
    seq![
        if key.relation == TheoryRelation::Eq {
            0u32
        } else {
            1u32
        },
        key.lhs.id() as u32,
        key.rhs.id() as u32,
    ]
}

proof fn lemma_relation_key(x: TheoryKey, y: TheoryKey)
    requires
        relation_key(x) == relation_key(y),
    ensures
        x == y,
{
    let kx = relation_key(x);
    let ky = relation_key(y);
    assert(kx[0] == ky[0] && kx[1] == ky[1] && kx[2] == ky[2]);
    lemma_term_id_range(x.lhs);
    lemma_term_id_range(x.rhs);
    lemma_term_id_range(y.lhs);
    lemma_term_id_range(y.rhs);
    lemma_term_id_injective(x.lhs, y.lhs);
    lemma_term_id_injective(x.rhs, y.rhs);
}

/// One asserted claim, guarded by an activation where it was asserted inside a frame.
pub struct Entry {
    /// The activation of the frame.
    pub guard: Option<Seq<u32>>,
    /// What was asserted.
    pub claim: Claim,
}

/// The claim holds wherever the definitions do.
pub open spec fn always(ground: Ground, p: Claim) -> bool {
    forall|model: Model, m: Interp, a: Assignment| #[trigger] ground.good(model, m, a) ==> p(model)
}

/// The entry holds, or its guard is false.
pub open spec fn entry_holds(ground: Ground, entry: Entry, model: Model, a: Assignment) -> bool {
    match entry.guard {
        None => (entry.claim)(model),
        Some(k) => ground.guards.contains_key(k) && a(ground.guards[k] as int) ==> (entry.claim)(
            model,
        ),
    }
}

/// All entries hold.
pub open spec fn entries_hold(
    ground: Ground,
    entries: Seq<Entry>,
    model: Model,
    a: Assignment,
) -> bool {
    forall|i: int| 0 <= i < entries.len() ==> entry_holds(ground, #[trigger] entries[i], model, a)
}

/// Persistent backend reused across repeated checks.
pub struct IncrementalBackend {
    /// Terms and the check for consistent relations.
    pub euf: EufSolver,
    /// Clauses and theory variables.
    pub sat: IncrementalSolver,
    /// Encoded formulas.
    pub formula_cache: Vec<Option<BoolValue>>,
    /// The variable of every relation.
    pub theory_vars: IndexTable,
    /// The variable of every activation that guards a clause.
    pub activation_vars: IndexTable,
    /// The variable of every Boolean symbol.
    pub bools: Ghost<Map<Seq<char>, Var>>,
    /// The function symbol of every name.
    pub funs: Ghost<Map<Seq<char>, FunId>>,
    /// The values of introduced constants.
    pub proxies: Ghost<Map<int, Quantity>>,
    /// Everything asserted so far.
    pub entries: Ghost<Seq<Entry>>,
}

impl IncrementalBackend {
    /// Everything that the definitions are made of.
    pub open spec fn ground(&self) -> Ground {
        Ground {
            terms: self.euf.views(),
            fun_count: self.euf.fun_count(),
            keys: self.sat.relations(),
            definitions: self.sat.definitions(),
            vars: self.sat.var_count(),
            guards: table_entries(self.activation_vars),
            bools: self.bools@,
            funs: self.funs@,
            proxies: self.proxies@,
        }
    }

    /// The table of theory variables is that of the solver.
    pub open spec fn keys_ok(&self) -> bool {
        forall|key: TheoryKey| #[trigger]
            table_entries(self.theory_vars).contains_key(relation_key(key)) ==> {
                let v = table_entries(self.theory_vars)[relation_key(key)] as int;
                v < self.sat.relations().len() && self.sat.relations()[v] == Some(key)
            }
    }

    /// Cached values are those of their formulas.
    pub open spec fn cache_ok(&self, nodes: Seq<NodeView>) -> bool {
        &&& self.formula_cache@.len() <= nodes.len()
        &&& forall|i: int|
            0 <= i < self.formula_cache@.len() && (#[trigger] self.formula_cache@[i]) is Some
                ==> value_matches(self.ground(), nodes, self.formula_cache@[i]->0, i)
    }

    /// Asserted clauses say what the entries say.
    pub open spec fn entries_ok(&self) -> bool {
        &&& forall|model: Model, m: Interp, a: Assignment| #[trigger]
            self.ground().good(model, m, a) ==> (clauses_true(a, self.sat.assertions())
                <==> entries_hold(self.ground(), self.entries@, model, a))
        &&& forall|i: int|
            0 <= i < self.entries@.len() ==> {
                ||| (#[trigger] self.entries@[i]).guard is None
                ||| self.ground().guards.contains_key(self.entries@[i].guard->0)
                ||| always(self.ground(), self.entries@[i].claim)
            }
    }

    /// The parts fit each other and the formulas, and definitions rule nothing out.
    pub open spec fn wf(&self, nodes: Seq<NodeView>) -> bool {
        &&& self.sat.wf()
        &&& self.euf.wf()
        &&& self.ground().ok()
        &&& self.ground().realizable()
        &&& self.keys_ok()
        &&& self.cache_ok(nodes)
        &&& self.entries_ok()
        &&& nodes_ok(nodes, self.ground().vars, self.ground().terms.len())
    }

    /// A handle space is used up.
    pub open spec fn full(&self) -> bool {
        ||| self.ground().vars >= u32::MAX
        ||| self.ground().fun_count >= u32::MAX
        ||| self.ground().terms.len() >= u32::MAX
    }

    /// The number of variables, function symbols and terms.
    pub open spec fn solid(&self) -> nat {
        self.ground().vars + self.ground().fun_count + self.ground().terms.len()
    }

    /// Only definitions have been added.
    pub open spec fn grows_to(&self, new: &IncrementalBackend) -> bool {
        &&& self.ground().extends_to(new.ground())
        &&& new.entries == self.entries
    }

    /// Nothing has been added yet.
    pub proof fn lemma_refl(&self)
        ensures
            self.grows_to(self),
    {
        self.ground().lemma_refl();
    }

    /// Growing in two steps is growing.
    pub proof fn lemma_trans(&self, mid: &IncrementalBackend, new: &IncrementalBackend)
        requires
            self.grows_to(mid),
            mid.grows_to(new),
        ensures
            self.grows_to(new),
    {
        self.ground().lemma_trans(mid.ground(), new.ground());
    }

    /// What follows from consistency with `nodes` when the ground grows and the rest stays.
    pub proof fn lemma_wf_grow(&self, new: &IncrementalBackend, nodes: Seq<NodeView>)
        requires
            self.wf(nodes),
            new.sat.wf(),
            new.euf.wf(),
            new.ground().ok(),
            new.ground().realizable(),
            new.keys_ok(),
            self.ground().extends_to(new.ground()),
            new.formula_cache == self.formula_cache,
            new.entries == self.entries,
            new.sat.assertions() == self.sat.assertions(),
        ensures
            new.wf(nodes),
            self.grows_to(new),
    {
        let g0 = self.ground();
        let g1 = new.ground();
        assert forall|i: int| 0 <= i < nodes.len() implies #[trigger] node_ok(
            nodes[i],
            i,
            g1.vars,
            g1.terms.len(),
        ) by {
            assert(node_ok(nodes[i], i, g0.vars, g0.terms.len()));
        }
        assert forall|i: int|
            0 <= i < new.formula_cache@.len() && (#[trigger] new.formula_cache@[i])
                is Some implies value_matches(g1, nodes, new.formula_cache@[i]->0, i) by {
            assert(self.formula_cache@[i] is Some);
            lemma_matches_grow(g0, g1, nodes, nodes, self.formula_cache@[i]->0, i);
        }
        assert forall|model: Model, m: Interp, a: Assignment| #[trigger] g1.good(
            model,
            m,
            a,
        ) implies (clauses_true(a, new.sat.assertions()) <==> entries_hold(
            g1,
            new.entries@,
            model,
            a,
        )) by {
            g0.lemma_good_smaller(g1, model, m, a);
            assert forall|i: int| 0 <= i < new.entries@.len() implies entry_holds(
                g1,
                #[trigger] new.entries@[i],
                model,
                a,
            ) == entry_holds(g0, new.entries@[i], model, a) by {
                let entry = new.entries@[i];
                if let Some(k) = entry.guard {
                    if !g0.guards.contains_key(k) {
                        assert(always(g0, entry.claim));
                        assert((entry.claim)(model));
                    }
                }
            }
            if entries_hold(g0, new.entries@, model, a) {
                assert forall|i: int| 0 <= i < new.entries@.len() implies entry_holds(
                    g1,
                    #[trigger] new.entries@[i],
                    model,
                    a,
                ) by {
                    assert(entry_holds(g0, new.entries@[i], model, a));
                }
            }
            if entries_hold(g1, new.entries@, model, a) {
                assert forall|i: int| 0 <= i < new.entries@.len() implies entry_holds(
                    g0,
                    #[trigger] new.entries@[i],
                    model,
                    a,
                ) by {
                    assert(entry_holds(g1, new.entries@[i], model, a));
                }
            }
        }
        assert forall|i: int| 0 <= i < new.entries@.len() implies {
            ||| (#[trigger] new.entries@[i]).guard is None
            ||| g1.guards.contains_key(new.entries@[i].guard->0)
            ||| always(g1, new.entries@[i].claim)
        } by {
            let entry = self.entries@[i];
            if always(g0, entry.claim) {
                assert forall|model: Model, m: Interp, a: Assignment| #[trigger] g1.good(
                    model,
                    m,
                    a,
                ) implies (entry.claim)(model) by {
                    g0.lemma_good_smaller(g1, model, m, a);
                }
            }
        }
    }

    /// Consistency stays when formulas are added.
    pub proof fn lemma_nodes_grow(&self, nodes: Seq<NodeView>, more: Seq<NodeView>)
        requires
            self.wf(nodes),
            nodes_kept(nodes, more),
            nodes_ok(more, self.ground().vars, self.ground().terms.len()),
        ensures
            self.wf(more),
    {
        let g = self.ground();
        g.lemma_refl();
        assert forall|i: int|
            0 <= i < self.formula_cache@.len() && (#[trigger] self.formula_cache@[i])
                is Some implies value_matches(g, more, self.formula_cache@[i]->0, i) by {
            lemma_matches_grow(g, g, nodes, more, self.formula_cache@[i]->0, i);
        }
    }

    /// Creates an empty persistent backend with no clauses, variables, or theory atoms.
    pub fn new() -> (backend: Self)
        ensures
            backend.wf(Seq::empty()),
            !backend.full(),
            backend.solid() == 0,
            backend.formula_cache@.len() == 0,
            backend.entries@ == Seq::<Entry>::empty(),
            backend.bools@ == Map::<Seq<char>, Var>::empty(),
            backend.funs@ == Map::<Seq<char>, FunId>::empty(),
    {
        let backend = IncrementalBackend {
            euf: EufSolver::new(),
            sat: IncrementalSolver::new(),
            formula_cache: Vec::new(),
            theory_vars: table_new(),
            activation_vars: table_new(),
            bools: Ghost(Map::empty()),
            funs: Ghost(Map::empty()),
            proxies: Ghost(Map::empty()),
            entries: Ghost(Seq::empty()),
        };
        proof {
            let g = backend.ground();
            assert(g.terms =~= Seq::<TermView>::empty());
            assert forall|model: Model, switches: Switches| #[trigger] g.completable(
                model,
                switches,
            ) by {
                let m: Interp = |f: int, args: Seq<int>| 0;
                let a: Assignment = |v: int| false;
                assert(g.complete(model, switches, m, a));
            }
        }
        backend
    }

    /// Introduces one variable together with the clauses that define it.
    fn define(
        &mut self,
        clauses: &Vec<Vec<Lit>>,
        Ghost(def): Ghost<spec_fn(Assignment) -> bool>,
        Ghost(nodes): Ghost<Seq<NodeView>>,
    ) -> (result: Result<Lit, Fault>)
        requires
            old(self).wf(nodes),
            forall|i: int|
                0 <= i < clauses@.len() ==> lits_below(
                    (#[trigger] clauses@[i])@,
                    old(self).ground().vars + 1,
                ),
            forall|a: Assignment|
                a(old(self).ground().vars as int) == #[trigger] def(a) ==> clauses_true(
                    a,
                    clause_views(clauses@),
                ),
            forall|a: Assignment, b: Assignment|
                same_below(a, b, old(self).ground().vars) ==> #[trigger] def(a) == #[trigger] def(b),
        ensures
            final(self).formula_cache == old(self).formula_cache,
            final(self).solid() <= old(self).solid() + 1,
            final(self).wf(nodes),
            old(self).grows_to(final(self)),
            final(self).bools == old(self).bools,
            final(self).funs == old(self).funs,
            final(self).ground().terms == old(self).ground().terms,
            result matches Err(fault) ==> fault is Full && final(self).full(),
            result matches Ok(lit) ==> {
                &&& lit == (Lit { var: Var(old(self).ground().vars as u32), negated: false })
                &&& lit.var.0 < final(self).ground().vars
                &&& forall|model: Model, m: Interp, a: Assignment| #[trigger]
                    final(self).ground().good(model, m, a) ==> clauses_true(
                        a,
                        clause_views(clauses@),
                    )
            },
    {
        let ghost b0 = *self;
        let ghost g0 = self.ground();
        let ghost views = clause_views(clauses@);
        proof {
            self.lemma_refl();
            self.sat.lemma_wf();
        }
        let var = match self.sat.alloc_bool_var() {
            None => {
                return Err(Fault::Full("boolean variable overflow".to_owned()));
            },
            Some(var) => var,
        };
        let mut i: usize = 0;
        proof {
            assert(g0.definitions + views.take(0) =~= g0.definitions);
        }
        while i < clauses.len()
            invariant
                0 <= i <= clauses.len(),
                views == clause_views(clauses@),
                self.sat.wf(),
                self.sat.var_count() == g0.vars + 1,
                self.sat.definitions() == g0.definitions + views.take(i as int),
                self.sat.assertions() == b0.sat.assertions(),
                self.sat.relations() == b0.sat.relations(),
                *self == (IncrementalBackend { sat: self.sat, ..b0 }),
                forall|j: int|
                    0 <= j < clauses@.len() ==> lits_below(
                        (#[trigger] clauses@[j])@,
                        g0.vars + 1,
                    ),
            decreases clauses.len() - i,
        {
            self.sat.add_definition(clauses[i].as_slice());
            proof {
                assert(views.take(i as int + 1) =~= views.take(i as int).push(
                    clauses@[i as int]@,
                ));
                assert(self.sat.definitions() =~= g0.definitions + views.take(i as int + 1));
            }
            i += 1;
        }
        let lit = Lit::new(var, false);
        proof {
            let g1 = self.ground();
            assert(views.take(i as int) =~= views);
            self.sat.lemma_wf();
            assert(g1.ok());
            assert(g1.terms.take(g0.terms.len() as int) =~= g0.terms);
            assert(g1.definitions.take(g0.definitions.len() as int) =~= g0.definitions);
            assert(g0.extends_to(g1));
            let choice = |model: Model, s: Switches, m: Interp, a: Assignment| def(a);
            assert forall|model: Model, s: Switches, m: Interp, a: Assignment|
                g0.complete(model, s, m, a) && a(g0.vars as int) == #[trigger] choice(
                    model,
                    s,
                    m,
                    a,
                ) implies g1.complete(model, s, m, a) by {
                assert(a(g0.vars as int) == def(a));
                assert(clauses_true(a, views));
                assert forall|j: int| 0 <= j < g1.definitions.len() implies clause_true(
                    a,
                    #[trigger] g1.definitions[j],
                ) by {
                    if j < g0.definitions.len() {
                        assert(g1.definitions[j] == g0.definitions[j]);
                        assert(clause_true(a, g0.definitions[j]));
                    } else {
                        assert(g1.definitions[j] == views[j - g0.definitions.len()]);
                        assert(clause_true(a, views[j - g0.definitions.len()]));
                    }
                }
            }
            g0.lemma_realizable_var(g1, choice);
            b0.lemma_wf_grow(self, nodes);
            assert forall|model: Model, m: Interp, a: Assignment| #[trigger] g1.good(
                model,
                m,
                a,
            ) implies clauses_true(a, views) by {
                assert forall|j: int| 0 <= j < views.len() implies clause_true(
                    a,
                    #[trigger] views[j],
                ) by {
                    assert(g1.definitions[g0.definitions.len() + j] == views[j]);
                    assert(clause_true(a, g1.definitions[g0.definitions.len() + j]));
                }
            }
        }
        Ok(lit)
    }

    /// Adds one permanent clause that holds in all completions.
    pub fn add_definition(&mut self, value: BoolValue, Ghost(nodes): Ghost<Seq<NodeView>>)
        requires
            old(self).wf(nodes),
            value_ok(value, old(self).ground().vars),
            forall|model: Model, m: Interp, a: Assignment| #[trigger]
                old(self).ground().pinned(model, m, a) ==> value_true(a, value),
        ensures
            final(self).formula_cache == old(self).formula_cache,
            final(self).solid() <= old(self).solid() + 0,
            final(self).wf(nodes),
            old(self).grows_to(final(self)),
            final(self).bools == old(self).bools,
            final(self).funs == old(self).funs,
            final(self).ground().terms == old(self).ground().terms,
            final(self).ground().vars == old(self).ground().vars,
            final(self).ground().proxies == old(self).ground().proxies,
            forall|model: Model, m: Interp, a: Assignment| #[trigger]
                final(self).ground().good(model, m, a) ==> value_true(a, value),
    {
        let ghost b0 = *self;
        let ghost g0 = self.ground();
        proof {
            self.lemma_refl();
        }
        let mut clause: Vec<Lit> = Vec::new();
        match value {
            BoolValue::Const(true) => {
                return;
            },
            BoolValue::Const(false) => {},
            BoolValue::Lit(lit) => {
                clause.push(lit);
            },
        }
        self.sat.add_definition(clause.as_slice());
        proof {
            let g1 = self.ground();
            assert(clause@ =~= match value {
                BoolValue::Const(_) => Seq::<Lit>::empty(),
                BoolValue::Lit(lit) => seq![lit],
            });
            assert forall|a: Assignment| clause_true(a, clause@) == #[trigger] value_true(
                a,
                value,
            ) by {
                if let BoolValue::Lit(lit) = value {
                    assert(clause@[0] == lit);
                }
            }
            self.sat.lemma_wf();
            assert(g1.ok());
            assert(g1.terms.take(g0.terms.len() as int) =~= g0.terms);
            assert(g1.definitions.take(g0.definitions.len() as int) =~= g0.definitions);
            assert(g0.extends_to(g1));
            assert forall|model: Model, s: Switches, m: Interp, a: Assignment| #[trigger]
                g0.complete(model, s, m, a) implies g1.complete(model, s, m, a) by {
                assert(g0.pinned(model, m, a));
                assert(value_true(a, value));
                assert forall|j: int| 0 <= j < g1.definitions.len() implies clause_true(
                    a,
                    #[trigger] g1.definitions[j],
                ) by {
                    if j < g0.definitions.len() {
                        assert(g1.definitions[j] == g0.definitions[j]);
                        assert(clause_true(a, g0.definitions[j]));
                    }
                }
            }
            g0.lemma_realizable_same(g1);
            b0.lemma_wf_grow(self, nodes);
            assert forall|model: Model, m: Interp, a: Assignment| #[trigger] g1.good(
                model,
                m,
                a,
            ) implies value_true(a, value) by {
                assert(g1.definitions[g0.definitions.len() as int] == clause@);
                assert(clause_true(a, g1.definitions[g0.definitions.len() as int]));
            }
        }
    }

    /// Conjoins values, short-circuiting on constants and introducing a variable when needed.
    pub fn and_values(&mut self, values: &Vec<BoolValue>, Ghost(nodes): Ghost<Seq<NodeView>>) -> (
        result: Result<BoolValue, Fault>)
        requires
            old(self).wf(nodes),
            values_ok(values@, old(self).ground().vars),
        ensures
            final(self).formula_cache == old(self).formula_cache,
            final(self).solid() <= old(self).solid() + 1,
            final(self).wf(nodes),
            old(self).grows_to(final(self)),
            final(self).bools == old(self).bools,
            final(self).funs == old(self).funs,
            final(self).ground().terms == old(self).ground().terms,
            result matches Err(fault) ==> fault is Full && final(self).full(),
            result matches Ok(value) ==> value_ok(value, final(self).ground().vars) && forall|
                model: Model,
                m: Interp,
                a: Assignment,
            | #[trigger]
                final(self).ground().good(model, m, a) ==> value_true(a, value) == all_true(
                    a,
                    values@,
                ),
    {
        let ghost g0 = self.ground();
        proof {
            self.lemma_refl();
        }
        let mut lits: Vec<Lit> = Vec::new();
        let mut i: usize = 0;
        while i < values.len()
            invariant
                0 <= i <= values.len(),
                *self == *old(self),
                self.grows_to(self),
                g0 == self.ground(),
                self.wf(nodes),
                values_ok(values@, g0.vars),
                lits_below(lits@, g0.vars),
                forall|a: Assignment| #[trigger]
                    all_true(a, values@.take(i as int)) == lits_true(a, lits@),
            decreases values.len() - i,
        {
            let value = values[i];
            let ghost before = lits@;
            proof {
                assert(value_ok(values@[i as int], g0.vars));
            }
            match value {
                BoolValue::Const(false) => {
                    proof {
                        assert forall|a: Assignment| !#[trigger] all_true(a, values@) by {
                            assert(!value_true(a, values@[i as int]));
                        }
                    }
                    return Ok(BoolValue::Const(false));
                },
                BoolValue::Const(true) => {},
                BoolValue::Lit(lit) => {
                    lits.push(lit);
                },
            }
            proof {
                assert forall|a: Assignment| #[trigger] all_true(a, values@.take(i as int + 1))
                    == lits_true(a, lits@) by {
                    lemma_values_step(a, values@, i as int);
                    assert(all_true(a, values@.take(i as int)) == lits_true(a, before));
                    if let BoolValue::Lit(lit) = value {
                        lemma_lits_push(a, before, lit);
                    }
                }
            }
            i += 1;
        }
        proof {
            assert(values@.take(i as int) =~= values@);
            assert forall|a: Assignment| #[trigger] all_true(a, values@) == lits_true(
                a,
                lits@,
            ) by {
                assert(all_true(a, values@.take(i as int)) == lits_true(a, lits@));
            }
        }
        if lits.len() == 0 {
            return Ok(BoolValue::Const(true));
        }
        if lits.len() == 1 {
            proof {
                assert forall|a: Assignment| lits_true(a, lits@) == #[trigger] lit_true(
                    a,
                    lits@[0],
                ) by {}
            }
            return Ok(BoolValue::Lit(lits[0]));
        }
        let v = Lit::new(Var(self.sat.num_vars()), false);
        let clauses = build_and_clauses(v, &lits);
        let ghost def = |a: Assignment| lits_true(a, lits@);
        proof {
            lemma_clauses_in_range(v, lits@, clauses@, g0.vars, true);
            assert forall|a: Assignment| a(g0.vars as int) == #[trigger] def(a) implies clauses_true(
                a,
                clause_views(clauses@),
            ) by {
                lemma_and_clauses(v, lits@, a);
            }
            assert forall|a: Assignment, b: Assignment| same_below(
                a,
                b,
                g0.vars,
            ) implies #[trigger] def(a) == #[trigger] def(b) by {
                lemma_lits_below(a, b, lits@, g0.vars);
            }
        }
        match self.define(&clauses, Ghost(def), Ghost(nodes)) {
            Err(fault) => Err(fault),
            Ok(lit) => {
                proof {
                    assert forall|model: Model, m: Interp, a: Assignment| #[trigger]
                        self.ground().good(model, m, a) implies lit_true(a, lit) == all_true(
                        a,
                        values@,
                    ) by {
                        lemma_and_clauses(v, lits@, a);
                        assert(all_true(a, values@) == lits_true(a, lits@));
                    }
                }
                Ok(BoolValue::Lit(lit))
            },
        }
    }

    /// Disjoins values, short-circuiting on constants and introducing a variable when needed.
    pub fn or_values(&mut self, values: &Vec<BoolValue>, Ghost(nodes): Ghost<Seq<NodeView>>) -> (
        result: Result<BoolValue, Fault>)
        requires
            old(self).wf(nodes),
            values_ok(values@, old(self).ground().vars),
        ensures
            final(self).formula_cache == old(self).formula_cache,
            final(self).solid() <= old(self).solid() + 1,
            final(self).wf(nodes),
            old(self).grows_to(final(self)),
            final(self).bools == old(self).bools,
            final(self).funs == old(self).funs,
            final(self).ground().terms == old(self).ground().terms,
            result matches Err(fault) ==> fault is Full && final(self).full(),
            result matches Ok(value) ==> value_ok(value, final(self).ground().vars) && forall|
                model: Model,
                m: Interp,
                a: Assignment,
            | #[trigger]
                final(self).ground().good(model, m, a) ==> value_true(a, value) == any_true(
                    a,
                    values@,
                ),
    {
        let ghost g0 = self.ground();
        proof {
            self.lemma_refl();
        }
        let mut lits: Vec<Lit> = Vec::new();
        let mut i: usize = 0;
        while i < values.len()
            invariant
                0 <= i <= values.len(),
                *self == *old(self),
                self.grows_to(self),
                g0 == self.ground(),
                self.wf(nodes),
                values_ok(values@, g0.vars),
                lits_below(lits@, g0.vars),
                forall|a: Assignment| #[trigger]
                    any_true(a, values@.take(i as int)) == clause_true(a, lits@),
            decreases values.len() - i,
        {
            let value = values[i];
            let ghost before = lits@;
            proof {
                assert(value_ok(values@[i as int], g0.vars));
            }
            match value {
                BoolValue::Const(true) => {
                    proof {
                        assert forall|a: Assignment| #[trigger] any_true(a, values@) by {
                            assert(value_true(a, values@[i as int]));
                        }
                    }
                    return Ok(BoolValue::Const(true));
                },
                BoolValue::Const(false) => {},
                BoolValue::Lit(lit) => {
                    lits.push(lit);
                },
            }
            proof {
                assert forall|a: Assignment| #[trigger] any_true(a, values@.take(i as int + 1))
                    == clause_true(a, lits@) by {
                    lemma_values_step(a, values@, i as int);
                    assert(any_true(a, values@.take(i as int)) == clause_true(a, before));
                    if let BoolValue::Lit(lit) = value {
                        lemma_lits_push(a, before, lit);
                    }
                }
            }
            i += 1;
        }
        proof {
            assert(values@.take(i as int) =~= values@);
            assert forall|a: Assignment| #[trigger] any_true(a, values@) == clause_true(
                a,
                lits@,
            ) by {
                assert(any_true(a, values@.take(i as int)) == clause_true(a, lits@));
            }
        }
        if lits.len() == 0 {
            return Ok(BoolValue::Const(false));
        }
        if lits.len() == 1 {
            proof {
                assert forall|a: Assignment| clause_true(a, lits@) == #[trigger] lit_true(
                    a,
                    lits@[0],
                ) by {}
            }
            return Ok(BoolValue::Lit(lits[0]));
        }
        let v = Lit::new(Var(self.sat.num_vars()), false);
        let clauses = build_or_clauses(v, &lits);
        let ghost def = |a: Assignment| clause_true(a, lits@);
        proof {
            lemma_clauses_in_range(v, lits@, clauses@, g0.vars, false);
            assert forall|a: Assignment| a(g0.vars as int) == #[trigger] def(a) implies clauses_true(
                a,
                clause_views(clauses@),
            ) by {
                lemma_or_clauses(v, lits@, a);
            }
            assert forall|a: Assignment, b: Assignment| same_below(
                a,
                b,
                g0.vars,
            ) implies #[trigger] def(a) == #[trigger] def(b) by {
                lemma_lits_below(a, b, lits@, g0.vars);
            }
        }
        match self.define(&clauses, Ghost(def), Ghost(nodes)) {
            Err(fault) => Err(fault),
            Ok(lit) => {
                proof {
                    assert forall|model: Model, m: Interp, a: Assignment| #[trigger]
                        self.ground().good(model, m, a) implies lit_true(a, lit) == any_true(
                        a,
                        values@,
                    ) by {
                        lemma_or_clauses(v, lits@, a);
                        assert(any_true(a, values@) == clause_true(a, lits@));
                    }
                }
                Ok(BoolValue::Lit(lit))
            },
        }
    }

    /// Conjoins two values.
    pub fn and_two(&mut self, x: BoolValue, y: BoolValue, Ghost(nodes): Ghost<Seq<NodeView>>) -> (
        result: Result<BoolValue, Fault>)
        requires
            old(self).wf(nodes),
            value_ok(x, old(self).ground().vars),
            value_ok(y, old(self).ground().vars),
        ensures
            final(self).formula_cache == old(self).formula_cache,
            final(self).solid() <= old(self).solid() + 1,
            final(self).wf(nodes),
            old(self).grows_to(final(self)),
            final(self).bools == old(self).bools,
            final(self).funs == old(self).funs,
            final(self).ground().terms == old(self).ground().terms,
            result matches Err(fault) ==> fault is Full && final(self).full(),
            result matches Ok(value) ==> value_ok(value, final(self).ground().vars) && forall|
                model: Model,
                m: Interp,
                a: Assignment,
            | #[trigger]
                final(self).ground().good(model, m, a) ==> value_true(a, value) == (value_true(a, x)
                    && value_true(a, y)),
    {
        let mut values: Vec<BoolValue> = Vec::new();
        values.push(x);
        values.push(y);
        let ghost vs = values@;
        let result = self.and_values(&values, Ghost(nodes));
        proof {
            assert(vs[0] == x && vs[1] == y);
            assert forall|a: Assignment| #[trigger] all_true(a, vs) == (value_true(a, x)
                && value_true(a, y)) by {
                if all_true(a, vs) {
                    assert(value_true(a, vs[0]) && value_true(a, vs[1]));
                }
            }
        }
        result
    }

    /// Disjoins two values.
    pub fn or_two(&mut self, x: BoolValue, y: BoolValue, Ghost(nodes): Ghost<Seq<NodeView>>) -> (
        result: Result<BoolValue, Fault>)
        requires
            old(self).wf(nodes),
            value_ok(x, old(self).ground().vars),
            value_ok(y, old(self).ground().vars),
        ensures
            final(self).formula_cache == old(self).formula_cache,
            final(self).solid() <= old(self).solid() + 1,
            final(self).wf(nodes),
            old(self).grows_to(final(self)),
            final(self).bools == old(self).bools,
            final(self).funs == old(self).funs,
            final(self).ground().terms == old(self).ground().terms,
            result matches Err(fault) ==> fault is Full && final(self).full(),
            result matches Ok(value) ==> value_ok(value, final(self).ground().vars) && forall|
                model: Model,
                m: Interp,
                a: Assignment,
            | #[trigger]
                final(self).ground().good(model, m, a) ==> value_true(a, value) == (value_true(a, x)
                    || value_true(a, y)),
    {
        let mut values: Vec<BoolValue> = Vec::new();
        values.push(x);
        values.push(y);
        let ghost vs = values@;
        let result = self.or_values(&values, Ghost(nodes));
        proof {
            assert(vs[0] == x && vs[1] == y);
            assert forall|a: Assignment| #[trigger] any_true(a, vs) == (value_true(a, x)
                || value_true(a, y)) by {
                if value_true(a, x) {
                    assert(value_true(a, vs[0]));
                }
                if value_true(a, y) {
                    assert(value_true(a, vs[1]));
                }
            }
        }
        result
    }

    /// Encodes that two values are equal.
    pub fn equivalence(
        &mut self,
        left: BoolValue,
        right: BoolValue,
        Ghost(nodes): Ghost<Seq<NodeView>>,
    ) -> (result: Result<BoolValue, Fault>)
        requires
            old(self).wf(nodes),
            value_ok(left, old(self).ground().vars),
            value_ok(right, old(self).ground().vars),
        ensures
            final(self).formula_cache == old(self).formula_cache,
            final(self).solid() <= old(self).solid() + 3,
            final(self).wf(nodes),
            old(self).grows_to(final(self)),
            final(self).bools == old(self).bools,
            final(self).funs == old(self).funs,
            final(self).ground().terms == old(self).ground().terms,
            result matches Err(fault) ==> fault is Full && final(self).full(),
            result matches Ok(value) ==> value_ok(value, final(self).ground().vars) && forall|
                model: Model,
                m: Interp,
                a: Assignment,
            | #[trigger]
                final(self).ground().good(model, m, a) ==> value_true(a, value) == (value_true(
                    a,
                    left,
                ) == value_true(a, right)),
    {
        let ghost b0 = *self;
        let not_left = left.not();
        let not_right = right.not();
        proof {
            assert(value_ok(not_left, self.ground().vars) && value_ok(
                not_right,
                self.ground().vars,
            ));
        }
        let forward = match self.or_two(not_left, right, Ghost(nodes)) {
            Err(fault) => return Err(fault),
            Ok(value) => value,
        };
        let ghost b1 = *self;
        let backward = match self.or_two(not_right, left, Ghost(nodes)) {
            Err(fault) => {
                proof {
                    b0.lemma_trans(&b1, self);
                }
                return Err(fault);
            },
            Ok(value) => value,
        };
        let ghost b2 = *self;
        let result = self.and_two(forward, backward, Ghost(nodes));
        proof {
            b0.lemma_trans(&b1, &b2);
            b0.lemma_trans(&b2, self);
            assert forall|model: Model, m: Interp, a: Assignment| #[trigger] self.ground().good(
                model,
                m,
                a,
            ) implies value_true(a, forward) == (value_true(a, right) || !value_true(a, left))
                && value_true(a, backward) == (value_true(a, left) || !value_true(a, right)) by {
                b2.ground().lemma_good_smaller(self.ground(), model, m, a);
                b1.ground().lemma_good_smaller(b2.ground(), model, m, a);
                assert(value_true(a, not_left) == !value_true(a, left));
                assert(value_true(a, not_right) == !value_true(a, right));
            }
        }
        result
    }

    /// Encodes that neighbouring values are equal.
    pub fn chain_equivalence(&mut self, values: &Vec<BoolValue>, Ghost(nodes): Ghost<Seq<NodeView>>) -> (
        result: Result<BoolValue, Fault>)
        requires
            old(self).wf(nodes),
            values_ok(values@, old(self).ground().vars),
        ensures
            final(self).formula_cache == old(self).formula_cache,
            final(self).solid() <= old(self).solid() + 3 * values@.len() + 1,
            final(self).wf(nodes),
            old(self).grows_to(final(self)),
            final(self).bools == old(self).bools,
            final(self).funs == old(self).funs,
            final(self).ground().terms == old(self).ground().terms,
            result matches Err(fault) ==> fault is Full && final(self).full(),
            result matches Ok(value) ==> value_ok(value, final(self).ground().vars) && forall|
                model: Model,
                m: Interp,
                a: Assignment,
            | #[trigger]
                final(self).ground().good(model, m, a) ==> value_true(a, value) == (forall|k: int|
                    0 <= k && k + 1 < values@.len() ==> value_true(a, #[trigger] values@[k])
                        == value_true(a, values@[k + 1])),
    {
        let ghost b0 = *self;
        let mut pairs: Vec<BoolValue> = Vec::new();
        let mut i: usize = 1;
        proof {
            self.lemma_refl();
        }
        while i < values.len()
            invariant
                1 <= i,
                b0 == *old(self),
                b0.wf(nodes),
                self.wf(nodes),
                b0.grows_to(self),
                self.formula_cache == b0.formula_cache,
                self.solid() <= b0.solid() + 3 * (i - 1),
                self.bools == b0.bools,
                self.funs == b0.funs,
                self.ground().terms == b0.ground().terms,
                values_ok(values@, b0.ground().vars),
                values_ok(pairs@, self.ground().vars),
                pairs@.len() == i - 1,
                forall|model: Model, m: Interp, a: Assignment, k: int|
                    #![trigger self.ground().good(model, m, a), pairs@[k]]
                    self.ground().good(model, m, a) && 0 <= k < pairs@.len() ==> value_true(
                        a,
                        pairs@[k],
                    ) == (value_true(a, values@[k]) == value_true(a, values@[k + 1])),
                values@.len() > 0 ==> i <= values@.len(),
                values@.len() == 0 ==> i == 1,
            decreases values.len() - i,
        {
            let ghost b1 = *self;
            proof {
                assert(value_ok(values@[i - 1], b0.ground().vars));
                assert(value_ok(values@[i as int], b0.ground().vars));
            }
            match self.equivalence(values[i - 1], values[i], Ghost(nodes)) {
                Err(fault) => {
                    proof {
                        b0.lemma_trans(&b1, self);
                    }
                    return Err(fault);
                },
                Ok(value) => {
                    proof {
                        b0.lemma_trans(&b1, self);
                        assert forall|model: Model, m: Interp, a: Assignment| #[trigger]
                            self.ground().good(model, m, a) implies b1.ground().good(
                            model,
                            m,
                            a,
                        ) by {
                            b1.ground().lemma_good_smaller(self.ground(), model, m, a);
                        }
                        assert forall|k: int| 0 <= k < pairs@.len() implies value_ok(
                            #[trigger] pairs@[k],
                            self.ground().vars,
                        ) by {
                            assert(value_ok(pairs@[k], b1.ground().vars));
                        }
                    }
                    pairs.push(value);
                },
            }
            i += 1;
        }
        let ghost b1 = *self;
        let ghost ps = pairs@;
        let result = self.and_values(&pairs, Ghost(nodes));
        proof {
            b0.lemma_trans(&b1, self);
            assert forall|model: Model, m: Interp, a: Assignment| #[trigger] self.ground().good(
                model,
                m,
                a,
            ) implies all_true(a, ps) == (forall|k: int|
                0 <= k && k + 1 < values@.len() ==> value_true(a, #[trigger] values@[k])
                    == value_true(a, values@[k + 1])) by {
                b1.ground().lemma_good_smaller(self.ground(), model, m, a);
                if all_true(a, ps) {
                    assert forall|k: int| 0 <= k && k + 1 < values@.len() implies value_true(
                        a,
                        #[trigger] values@[k],
                    ) == value_true(a, values@[k + 1]) by {
                        assert(value_true(a, ps[k]));
                    }
                }
                if forall|k: int|
                    0 <= k && k + 1 < values@.len() ==> value_true(a, #[trigger] values@[k])
                        == value_true(a, values@[k + 1]) {
                    assert forall|k: int| 0 <= k < ps.len() implies value_true(
                        a,
                        #[trigger] ps[k],
                    ) by {
                        assert(value_true(a, values@[k]) == value_true(a, values@[k + 1]));
                    }
                }
            }
        }
        result
    }

    /// Returns the variable of one relation, introducing it where it is new.
    pub fn theory_atom(&mut self, key: TheoryKey, Ghost(nodes): Ghost<Seq<NodeView>>) -> (result:
        Result<BoolValue, Fault>)
        requires
            old(self).wf(nodes),
            key.in_range(old(self).ground().terms),
        ensures
            final(self).formula_cache == old(self).formula_cache,
            final(self).solid() <= old(self).solid() + 1,
            final(self).wf(nodes),
            old(self).grows_to(final(self)),
            final(self).bools == old(self).bools,
            final(self).funs == old(self).funs,
            final(self).ground().terms == old(self).ground().terms,
            final(self).ground().proxies == old(self).ground().proxies,
            result matches Err(fault) ==> fault is Full && final(self).full(),
            result matches Ok(value) ==> value_ok(value, final(self).ground().vars) && forall|
                model: Model,
                m: Interp,
                a: Assignment,
            | #[trigger]
                final(self).ground().good(model, m, a) ==> value_true(a, value) == atom_holds(
                    final(self).ground().terms,
                    m,
                    key.atom(),
                ),
    {
        let ghost b0 = *self;
        let ghost g0 = self.ground();
        proof {
            self.lemma_refl();
            lemma_term_id_range(key.lhs);
            lemma_term_id_range(key.rhs);
            self.sat.lemma_wf();
        }
        let mut list: Vec<u32> = Vec::new();
        list.push(
            match key.relation {
                TheoryRelation::Eq => 0u32,
                TheoryRelation::Diseq => 1u32,
            },
        );
        list.push(key.lhs.index() as u32);
        list.push(key.rhs.index() as u32);
        proof {
            assert(list@ =~= relation_key(key));
        }
        if let Some(v) = table_get(&self.theory_vars, &list) {
            let lit = Lit::new(Var(v), false);
            proof {
                assert(g0.keys[v as int] is Some);
            }
            return Ok(BoolValue::Lit(lit));
        }
        let var = match self.sat.alloc_bool_var() {
            None => {
                return Err(Fault::Full("boolean variable overflow".to_owned()));
            },
            Some(var) => var,
        };
        table_insert(&mut self.theory_vars, list, var.0);
        self.sat.add_theory_atom(var, key);
        let lit = Lit::new(var, false);
        proof {
            let g1 = self.ground();
            self.sat.lemma_wf();
            assert(g1.keys[var.0 as int] == Some(key));
            assert(keys_in_range(g1.terms, g1.keys)) by {
                assert forall|v: int|
                    0 <= v < g1.keys.len() && (#[trigger] g1.keys[v]) is Some implies (
                g1.keys[v]->0).in_range(g1.terms) by {
                    if v < var.0 {
                        assert(g0.keys[v] is Some);
                    }
                }
            }
            assert(g1.ok()) by {
                assert forall|i: int| 0 <= i < g1.definitions.len() implies lits_below(
                    #[trigger] g1.definitions[i],
                    g1.vars,
                ) by {
                    assert(lits_below(g0.definitions[i], g0.vars));
                }
            }
            assert(g1.terms.take(g0.terms.len() as int) =~= g0.terms);
            assert(g1.definitions.take(g0.definitions.len() as int) =~= g0.definitions);
            assert(g0.extends_to(g1));
            let choice = |model: Model, s: Switches, m: Interp, a: Assignment|
                atom_holds(g0.terms, m, key.atom());
            assert forall|model: Model, s: Switches, m: Interp, a: Assignment|
                g0.complete(model, s, m, a) && a(g0.vars as int) == #[trigger] choice(
                    model,
                    s,
                    m,
                    a,
                ) implies g1.complete(model, s, m, a) by {
                assert forall|v: int|
                    0 <= v < g1.keys.len() && (#[trigger] g1.keys[v]) is Some implies a(v)
                    == atom_holds(g1.terms, m, (g1.keys[v]->0).atom()) by {
                    if v < var.0 {
                        assert(g0.keys[v] is Some);
                    }
                }
            }
            g0.lemma_realizable_var(g1, choice);
            assert(self.keys_ok()) by {
                assert forall|k: TheoryKey| #[trigger]
                    table_entries(self.theory_vars).contains_key(relation_key(k)) implies {
                    let v = table_entries(self.theory_vars)[relation_key(k)] as int;
                    v < self.sat.relations().len() && self.sat.relations()[v] == Some(k)
                } by {
                    if relation_key(k) == relation_key(key) {
                        lemma_relation_key(k, key);
                    } else {
                        assert(table_entries(b0.theory_vars).contains_key(relation_key(k)));
                        let v = table_entries(b0.theory_vars)[relation_key(k)] as int;
                        assert(b0.sat.relations()[v] == Some(k));
                        assert(self.sat.relations()[v] == b0.sat.relations()[v]);
                    }
                }
            }
            b0.lemma_wf_grow(self, nodes);
            assert forall|model: Model, m: Interp, a: Assignment| #[trigger] g1.good(
                model,
                m,
                a,
            ) implies lit_true(a, lit) == atom_holds(g1.terms, m, key.atom()) by {
                assert(g1.keys[var.0 as int] is Some);
            }
        }
        Ok(BoolValue::Lit(lit))
    }

    /// Encodes that neighbouring terms are equal.
    pub fn chain_term_relation(&mut self, terms: &Vec<TermId>, Ghost(nodes): Ghost<Seq<NodeView>>) -> (
        result: Result<BoolValue, Fault>)
        requires
            old(self).wf(nodes),
            forall|k: int|
                0 <= k < terms@.len() ==> (#[trigger] terms@[k]).id() < old(self).ground().terms.len(),
        ensures
            final(self).formula_cache == old(self).formula_cache,
            final(self).solid() <= old(self).solid() + terms@.len() + 1,
            final(self).wf(nodes),
            old(self).grows_to(final(self)),
            final(self).bools == old(self).bools,
            final(self).funs == old(self).funs,
            final(self).ground().terms == old(self).ground().terms,
            result matches Err(fault) ==> fault is Full && final(self).full(),
            result matches Ok(v) ==> value_ok(v, final(self).ground().vars) && forall|
                model: Model,
                m: Interp,
                a: Assignment,
            | #[trigger]
                final(self).ground().good(model, m, a) ==> value_true(a, v) == (forall|k: int|
                    0 <= k && k + 1 < terms@.len() ==> value(
                        final(self).ground().terms,
                        m,
                        (#[trigger] terms@[k]).id(),
                    ) == value(final(self).ground().terms, m, terms@[k + 1].id())),
    {
        let ghost b0 = *self;
        let ghost table = self.ground().terms;
        let mut pairs: Vec<BoolValue> = Vec::new();
        let mut i: usize = 1;
        proof {
            self.lemma_refl();
        }
        while i < terms.len()
            invariant
                1 <= i,
                b0 == *old(self),
                b0.wf(nodes),
                self.wf(nodes),
                b0.grows_to(self),
                self.formula_cache == b0.formula_cache,
                self.solid() <= b0.solid() + (i - 1),
                self.bools == b0.bools,
                self.funs == b0.funs,
                table == b0.ground().terms,
                self.ground().terms == table,
                forall|k: int| 0 <= k < terms@.len() ==> (#[trigger] terms@[k]).id() < table.len(),
                values_ok(pairs@, self.ground().vars),
                pairs@.len() == i - 1,
                forall|model: Model, m: Interp, a: Assignment, k: int|
                    #![trigger self.ground().good(model, m, a), pairs@[k]]
                    self.ground().good(model, m, a) && 0 <= k < pairs@.len() ==> value_true(
                        a,
                        pairs@[k],
                    ) == (value(table, m, terms@[k].id()) == value(table, m, terms@[k + 1].id())),
                terms@.len() > 0 ==> i <= terms@.len(),
                terms@.len() == 0 ==> i == 1,
            decreases terms.len() - i,
        {
            let ghost b1 = *self;
            let key = TheoryKey::new(TheoryRelation::Eq, terms[i - 1], terms[i]);
            proof {
                assert(terms@[i - 1].id() < table.len());
                assert(terms@[i as int].id() < table.len());
            }
            match self.theory_atom(key, Ghost(nodes)) {
                Err(fault) => {
                    proof {
                        b0.lemma_trans(&b1, self);
                    }
                    return Err(fault);
                },
                Ok(atom) => {
                    proof {
                        b0.lemma_trans(&b1, self);
                        assert forall|model: Model, m: Interp, a: Assignment| #[trigger]
                            self.ground().good(model, m, a) implies b1.ground().good(
                            model,
                            m,
                            a,
                        ) by {
                            b1.ground().lemma_good_smaller(self.ground(), model, m, a);
                        }
                        assert forall|k: int| 0 <= k < pairs@.len() implies value_ok(
                            #[trigger] pairs@[k],
                            self.ground().vars,
                        ) by {
                            assert(value_ok(pairs@[k], b1.ground().vars));
                        }
                    }
                    pairs.push(atom);
                },
            }
            i += 1;
        }
        let ghost b1 = *self;
        let ghost ps = pairs@;
        let result = self.and_values(&pairs, Ghost(nodes));
        proof {
            b0.lemma_trans(&b1, self);
            assert forall|model: Model, m: Interp, a: Assignment| #[trigger] self.ground().good(
                model,
                m,
                a,
            ) implies all_true(a, ps) == (forall|k: int|
                0 <= k && k + 1 < terms@.len() ==> value(table, m, (#[trigger] terms@[k]).id())
                    == value(table, m, terms@[k + 1].id())) by {
                b1.ground().lemma_good_smaller(self.ground(), model, m, a);
                if all_true(a, ps) {
                    assert forall|k: int| 0 <= k && k + 1 < terms@.len() implies value(
                        table,
                        m,
                        (#[trigger] terms@[k]).id(),
                    ) == value(table, m, terms@[k + 1].id()) by {
                        assert(value_true(a, ps[k]));
                    }
                }
                if forall|k: int|
                    0 <= k && k + 1 < terms@.len() ==> value(table, m, (#[trigger] terms@[k]).id())
                        == value(table, m, terms@[k + 1].id()) {
                    assert forall|k: int| 0 <= k < ps.len() implies value_true(
                        a,
                        #[trigger] ps[k],
                    ) by {
                        assert(value(table, m, terms@[k].id()) == value(
                            table,
                            m,
                            terms@[k + 1].id(),
                        ));
                    }
                }
            }
        }
        result
    }

    /// Encodes that all terms differ from each other.
    pub fn pairwise_distinct(&mut self, terms: &Vec<TermId>, Ghost(nodes): Ghost<Seq<NodeView>>) -> (
        result: Result<BoolValue, Fault>)
        requires
            old(self).wf(nodes),
            forall|k: int|
                0 <= k < terms@.len() ==> (#[trigger] terms@[k]).id() < old(self).ground().terms.len(),
        ensures
            final(self).formula_cache == old(self).formula_cache,
            final(self).solid() <= old(self).solid() + terms@.len() * terms@.len() + 1,
            final(self).wf(nodes),
            old(self).grows_to(final(self)),
            final(self).bools == old(self).bools,
            final(self).funs == old(self).funs,
            final(self).ground().terms == old(self).ground().terms,
            result matches Err(fault) ==> fault is Full && final(self).full(),
            result matches Ok(v) ==> value_ok(v, final(self).ground().vars) && forall|
                model: Model,
                m: Interp,
                a: Assignment,
            | #[trigger]
                final(self).ground().good(model, m, a) ==> value_true(a, v) == (forall|
                    j: int,
                    k: int,
                |
                    0 <= j < k < terms@.len() ==> value(
                        final(self).ground().terms,
                        m,
                        (#[trigger] terms@[j]).id(),
                    ) != value(final(self).ground().terms, m, (#[trigger] terms@[k]).id())),
    {
        let ghost b0 = *self;
        let ghost table = self.ground().terms;
        let mut values: Vec<BoolValue> = Vec::new();
        let ghost mut pairs: Seq<(int, int)> = Seq::empty();
        let mut left: usize = 0;
        proof {
            assert(0 <= terms@.len() * terms@.len()) by (nonlinear_arith);
            self.lemma_refl();
        }
        while left < terms.len()
            invariant
                0 <= left <= terms.len(),
                b0 == *old(self),
                b0.wf(nodes),
                self.wf(nodes),
                b0.grows_to(self),
                self.formula_cache == b0.formula_cache,
                self.solid() <= b0.solid() + left * (terms@.len() as int),
                left * (terms@.len() as int) <= terms@.len() * terms@.len(),
                self.bools == b0.bools,
                self.funs == b0.funs,
                table == b0.ground().terms,
                self.ground().terms == table,
                forall|k: int| 0 <= k < terms@.len() ==> (#[trigger] terms@[k]).id() < table.len(),
                values_ok(values@, self.ground().vars),
                pairs_match(self.ground(), table, terms@, values@, pairs),
                forall|p: int|
                    0 <= p < pairs.len() ==> 0 <= (#[trigger] pairs[p]).0 < pairs[p].1
                        < terms@.len(),
                forall|j: int, k: int|
                    0 <= j < left && j < k < terms@.len() ==> #[trigger] listed(pairs, j, k),
            decreases terms.len() - left,
        {
            proof {
                let n = terms@.len() as int;
                assert((left + 1) * n == left * n + n) by (nonlinear_arith);
                assert((left + 1) * n <= n * n) by (nonlinear_arith)
                    requires
                        left + 1 <= n,
                ;
            }
            let mut right: usize = left + 1;
            while right < terms.len()
                invariant
                    0 <= left < right <= terms.len(),
                    b0 == *old(self),
                    b0.wf(nodes),
                    self.wf(nodes),
                    b0.grows_to(self),
                    self.formula_cache == b0.formula_cache,
                    self.solid() <= b0.solid() + left * (terms@.len() as int) + (right - left - 1),
                    left * (terms@.len() as int) + terms@.len() <= terms@.len() * terms@.len(),
                    self.bools == b0.bools,
                    self.funs == b0.funs,
                    table == b0.ground().terms,
                    self.ground().terms == table,
                    forall|k: int|
                        0 <= k < terms@.len() ==> (#[trigger] terms@[k]).id() < table.len(),
                    values_ok(values@, self.ground().vars),
                    pairs_match(self.ground(), table, terms@, values@, pairs),
                    forall|p: int|
                        0 <= p < pairs.len() ==> 0 <= (#[trigger] pairs[p]).0 < pairs[p].1
                            < terms@.len(),
                    forall|j: int, k: int|
                        0 <= j < left && j < k < terms@.len() ==> #[trigger] listed(pairs, j, k),
                    forall|k: int|
                        left < k < right ==> #[trigger] listed(pairs, left as int, k),
                decreases terms.len() - right,
            {
                let ghost b1 = *self;
                let key = TheoryKey::new(TheoryRelation::Diseq, terms[left], terms[right]);
                proof {
                    assert(terms@[left as int].id() < table.len());
                    assert(terms@[right as int].id() < table.len());
                }
                match self.theory_atom(key, Ghost(nodes)) {
                    Err(fault) => {
                        proof {
                            b0.lemma_trans(&b1, self);
                        }
                        return Err(fault);
                    },
                    Ok(atom) => {
                        proof {
                            b0.lemma_trans(&b1, self);
                            assert forall|model: Model, m: Interp, a: Assignment| #[trigger]
                                self.ground().good(model, m, a) implies b1.ground().good(
                                model,
                                m,
                                a,
                            ) by {
                                b1.ground().lemma_good_smaller(self.ground(), model, m, a);
                            }
                            assert forall|k: int| 0 <= k < values@.len() implies value_ok(
                                #[trigger] values@[k],
                                self.ground().vars,
                            ) by {
                                assert(value_ok(values@[k], b1.ground().vars));
                            }
                            let more = pairs.push((left as int, right as int));
                            assert forall|j: int, k: int| listed(
                                pairs,
                                j,
                                k,
                            ) implies #[trigger] listed(more, j, k) by {
                                let p = choose|p: int|
                                    0 <= p < pairs.len() && pairs[p] == (j, k);
                                assert(more[p] == (j, k));
                            }
                            assert(more[pairs.len() as int] == (left as int, right as int));
                            assert(listed(more, left as int, right as int));
                            pairs = more;
                        }
                        values.push(atom);
                    },
                }
                right += 1;
            }
            left += 1;
        }
        let ghost b1 = *self;
        let ghost vs = values@;
        let result = self.and_values(&values, Ghost(nodes));
        proof {
            b0.lemma_trans(&b1, self);
            assert forall|model: Model, m: Interp, a: Assignment| #[trigger] self.ground().good(
                model,
                m,
                a,
            ) implies all_true(a, vs) == (forall|j: int, k: int|
                0 <= j < k < terms@.len() ==> value(table, m, (#[trigger] terms@[j]).id()) != value(
                    table,
                    m,
                    (#[trigger] terms@[k]).id(),
                )) by {
                b1.ground().lemma_good_smaller(self.ground(), model, m, a);
                if all_true(a, vs) {
                    assert forall|j: int, k: int| 0 <= j < k < terms@.len() implies value(
                        table,
                        m,
                        (#[trigger] terms@[j]).id(),
                    ) != value(table, m, (#[trigger] terms@[k]).id()) by {
                        assert(listed(pairs, j, k));
                        let p = choose|p: int| 0 <= p < pairs.len() && pairs[p] == (j, k);
                        assert(value_true(a, vs[p]));
                    }
                }
                if forall|j: int, k: int|
                    0 <= j < k < terms@.len() ==> value(table, m, (#[trigger] terms@[j]).id())
                        != value(table, m, (#[trigger] terms@[k]).id()) {
                    assert forall|p: int| 0 <= p < vs.len() implies value_true(
                        a,
                        #[trigger] vs[p],
                    ) by {
                        let (j, k) = pairs[p];
                        assert(value(table, m, terms@[j].id()) != value(table, m, terms@[k].id()));
                    }
                }
            }
        }
        result
    }
}

/// The pair occurs in the list.
spec fn listed(pairs: Seq<(int, int)>, j: int, k: int) -> bool {
    pairs.contains((j, k))
}

/// Each value says that its pair of terms differs.
spec fn pairs_match(
    ground: Ground,
    table: Seq<TermView>,
    terms: Seq<TermId>,
    values: Seq<BoolValue>,
    pairs: Seq<(int, int)>,
) -> bool {
    &&& pairs.len() == values.len()
    &&& forall|model: Model, m: Interp, a: Assignment, p: int|
        #![trigger ground.good(model, m, a), values[p]]
        ground.good(model, m, a) && 0 <= p < values.len() ==> value_true(a, values[p]) == (value(
            table,
            m,
            terms[pairs[p].0].id(),
        ) != value(table, m, terms[pairs[p].1].id()))
}

proof fn lemma_values_step(a: Assignment, values: Seq<BoolValue>, i: int)
    requires
        0 <= i < values.len(),
    ensures
        all_true(a, values.take(i + 1)) == (all_true(a, values.take(i)) && value_true(a, values[i])),
        any_true(a, values.take(i + 1)) == (any_true(a, values.take(i)) || value_true(a, values[i])),
{
    let x = values.take(i);
    let y = values.take(i + 1);
    assert(y[i] == values[i]);
    assert forall|j: int| 0 <= j < i implies x[j] == y[j] by {}
    if all_true(a, y) {
        assert(value_true(a, y[i]));
        assert forall|j: int| 0 <= j < i implies value_true(a, #[trigger] x[j]) by {
            assert(value_true(a, y[j]));
        }
    }
    if all_true(a, x) && value_true(a, values[i]) {
        assert forall|j: int| 0 <= j < y.len() implies value_true(a, #[trigger] y[j]) by {
            if j < i {
                assert(value_true(a, x[j]));
            }
        }
    }
    if any_true(a, y) {
        let j = choose|j: int| 0 <= j < y.len() && value_true(a, #[trigger] y[j]);
        if j < i {
            assert(value_true(a, x[j]));
        }
    }
    if any_true(a, x) {
        let j = choose|j: int| 0 <= j < x.len() && value_true(a, #[trigger] x[j]);
        assert(value_true(a, y[j]));
    }
}

} // verus!
