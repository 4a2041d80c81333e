//! Lowering context: symbol tables, formulas, terms and definitions above the backend.

use crate::euf::table::Interner;
use crate::euf_core::{FunId, TermId};
use crate::lower::backend::{
    lemma_denotes_grow, lemma_node_grow, node_denotes, nodes_kept, Entry, Fault, IncrementalBackend,
};
use crate::lower::cost::{charged, lemma_open_cost_same, list_cost};
use crate::lower::denote::{
    all_claims, any_claim, claims_chain, quantities_chain, quantities_distinct, Claim, Definition,
    Model, Quantity,
};
use crate::lower::ground::Ground;
use crate::lower::nodes::{
    formula_ids, lemma_formula_id, node_ok, node_true, nodes_ok, term_ids, FormulaArena,
    FormulaNode, LowerFormulaId, NodeKind, NodeView,
};
use crate::sat::{Assignment, Var};
use crate::semantics::{value, values, Interp};
use vstd::hash_map::StringHashMap;
use vstd::prelude::*;

verus! {

/// One validated zero-arity definition stored above the backend.
#[derive(Debug, Clone, Copy, PartialEq, Eq, Structural)]
pub enum LoweredDefinitionValue {
    /// Definition that expands to a Boolean formula.
    Formula(LowerFormulaId),
    /// Definition that expands to a term.
    Term(TermId),
}

/// Persistent lowering context together with the backend that it feeds.
pub struct LowerContext {
    /// Variable of every Boolean symbol.
    pub bool_symbols: StringHashMap<Var>,
    /// Function symbol of every name.
    pub fun_symbols: StringHashMap<FunId>,
    /// Persistent formulas.
    pub arena: FormulaArena,
    /// Keys of the stored term nodes.
    pub term_intern: Interner,
    /// Backend term of every stored term node.
    pub term_values: Vec<TermId>,
    /// Validated zero-arity definitions by name.
    pub definitions: StringHashMap<LoweredDefinitionValue>,
    /// Persistent backend.
    pub backend: IncrementalBackend,
    /// What the definitions stand for.
    pub meanings: Ghost<Map<Seq<char>, Definition>>,
}

/// The definition stands for its meaning.
pub open spec fn definition_ok(
    ground: Ground,
    nodes: Seq<NodeView>,
    value: LoweredDefinitionValue,
    meaning: Definition,
) -> bool {
    match (value, meaning) {
        (LoweredDefinitionValue::Formula(id), Definition::Formula(p)) => node_denotes(
            ground,
            nodes,
            id.id(),
            p,
        ),
        (LoweredDefinitionValue::Term(t), Definition::Term(u)) => ground.term_denotes(t.id(), u),
        _ => false,
    }
}

/// The key of an application.
pub open spec fn application_key(fun: int, args: Seq<int>) -> Seq<u32> {
    seq![0u32, fun as u32] + args.map_values(|p: int| p as u32)
}

/// The key of a conditional term.
pub open spec fn choice_key(c: int, t: int, e: int) -> Seq<u32> {
    seq![1u32, c as u32, t as u32, e as u32]
}

/// The stored term is what its key says.
pub open spec fn term_entry_ok(ground: Ground, nodes: Seq<NodeView>, key: Seq<u32>, t: int) -> bool {
    &&& 0 <= t < ground.terms.len()
    &&& key.len() >= 2 && key[0] == 0 ==> {
        &&& ground.terms[t].fun == key[1]
        &&& ground.terms[t].args == key.skip(2).map_values(|p: u32| p as int)
    }
    &&& key.len() == 4 && key[0] == 1 ==> {
        &&& key[1] < nodes.len()
        &&& key[2] < ground.terms.len()
        &&& key[3] < ground.terms.len()
        &&& forall|model: Model, m: Interp, a: Assignment| #[trigger]
            ground.good(model, m, a) ==> value(ground.terms, m, t) == if node_true(
                nodes,
                ground.terms,
                m,
                a,
                key[1] as int,
            ) {
                value(ground.terms, m, key[2] as int)
            } else {
                value(ground.terms, m, key[3] as int)
            }
    }
}

impl LowerContext {
    /// The stored formulas.
    pub open spec fn nodes(&self) -> Seq<NodeView> {
        self.arena.nodes()
    }

    /// What the backend's definitions are made of.
    pub open spec fn ground(&self) -> Ground {
        self.backend.ground()
    }

    /// The tables above the backend agree with it.
    pub open spec fn tables_ok(&self) -> bool {
        &&& self.bool_symbols@ == self.backend.bools@
        &&& self.fun_symbols@ == self.backend.funs@
        &&& self.term_intern.wf()
        &&& self.term_intern.lists().len() == self.term_values@.len()
        &&& forall|i: int|
            0 <= i < self.term_values@.len() ==> term_entry_ok(
                self.ground(),
                self.nodes(),
                self.term_intern.lists()[i],
                (#[trigger] self.term_values@[i]).id(),
            )
        &&& self.definitions@.dom() == self.meanings@.dom()
        &&& forall|name: Seq<char>| #[trigger]
            self.meanings@.contains_key(name) ==> definition_ok(
                self.ground(),
                self.nodes(),
                self.definitions@[name],
                self.meanings@[name],
            )
    }

    /// Formulas, tables and backend are consistent.
    pub open spec fn wf(&self) -> bool {
        &&& self.arena.wf()
        &&& self.backend.wf(self.nodes())
        &&& self.tables_ok()
    }

    /// A handle space is used up.
    pub open spec fn full(&self) -> bool {
        ||| self.backend.full()
        ||| self.nodes().len() >= u32::MAX
        ||| self.term_values@.len() >= u32::MAX
    }

    /// The handles in use, and those that encoding the stored formulas may still take.
    pub open spec fn used(&self) -> nat {
        self.backend.load(self.nodes()) + self.nodes().len() + self.term_values@.len()
    }

    /// A handle space is used up only where as many handles are in use.
    pub proof fn lemma_full(&self)
        ensures
            self.full() ==> self.used() >= u32::MAX,
    {
    }

    /// Only formulas, terms, names and definitions of them have been added.
    pub open spec fn grows_to(&self, new: &LowerContext) -> bool {
        &&& self.backend.grows_to(&new.backend)
        &&& nodes_kept(self.nodes(), new.nodes())
        &&& new.definitions@ == self.definitions@
        &&& new.meanings == self.meanings
    }

    /// Nothing has been added yet.
    pub proof fn lemma_refl(&self)
        ensures
            self.grows_to(self),
    {
        self.backend.lemma_refl();
    }

    /// Growing in two steps is growing.
    pub proof fn lemma_trans(&self, mid: &LowerContext, new: &LowerContext)
        requires
            self.grows_to(mid),
            mid.grows_to(new),
        ensures
            self.grows_to(new),
    {
        self.backend.lemma_trans(&mid.backend, &new.backend);
        assert forall|j: int| 0 <= j < self.nodes().len() implies #[trigger] new.nodes()[j]
            == self.nodes()[j] by {
            assert(mid.nodes()[j] == self.nodes()[j]);
        }
    }

    /// Tables stay consistent when backend and formulas grow.
    pub proof fn lemma_tables_grow(&self, new: &LowerContext)
        requires
            self.wf(),
            new.backend.wf(new.nodes()),
            self.ground().extends_to(new.ground()),
            nodes_kept(self.nodes(), new.nodes()),
            new.bool_symbols@ == new.backend.bools@,
            new.fun_symbols@ == new.backend.funs@,
            new.term_intern == self.term_intern,
            new.term_values == self.term_values,
            new.definitions == self.definitions,
            new.meanings == self.meanings,
        ensures
            new.tables_ok(),
    {
        let g0 = self.ground();
        let g1 = new.ground();
        assert forall|i: int| 0 <= i < new.term_values@.len() implies term_entry_ok(
            g1,
            new.nodes(),
            new.term_intern.lists()[i],
            (#[trigger] new.term_values@[i]).id(),
        ) by {
            let key = self.term_intern.lists()[i];
            let t = self.term_values@[i].id();
            assert(term_entry_ok(g0, self.nodes(), key, t));
            assert(g1.terms.take(g0.terms.len() as int)[t] == g0.terms[t]);
            if key.len() == 4 && key[0] == 1 {
                assert forall|model: Model, m: Interp, a: Assignment| #[trigger] g1.good(
                    model,
                    m,
                    a,
                ) implies value(g1.terms, m, t) == if node_true(
                    new.nodes(),
                    g1.terms,
                    m,
                    a,
                    key[1] as int,
                ) {
                    value(g1.terms, m, key[2] as int)
                } else {
                    value(g1.terms, m, key[3] as int)
                } by {
                    g0.lemma_good_smaller(g1, model, m, a);
                    g0.lemma_value_same(g1, m, t);
                    g0.lemma_value_same(g1, m, key[2] as int);
                    g0.lemma_value_same(g1, m, key[3] as int);
                    lemma_node_grow(
                        g0,
                        g1,
                        self.nodes(),
                        new.nodes(),
                        model,
                        m,
                        a,
                        key[1] as int,
                    );
                }
            }
        }
        assert forall|name: Seq<char>| #[trigger] new.meanings@.contains_key(
            name,
        ) implies definition_ok(g1, new.nodes(), new.definitions@[name], new.meanings@[name]) by {
            assert(self.meanings@.contains_key(name));
            match (self.definitions@[name], self.meanings@[name]) {
                (LoweredDefinitionValue::Formula(id), Definition::Formula(p)) => {
                    lemma_denotes_grow(g0, g1, self.nodes(), new.nodes(), id.id(), p);
                },
                (LoweredDefinitionValue::Term(t), Definition::Term(u)) => {
                    g0.lemma_term_grow(g1, t.id(), u);
                },
                _ => {},
            }
        }
    }

    /// Formulas keep their meaning when the context grows.
    pub proof fn lemma_denotes(&self, new: &LowerContext, i: int, p: Claim)
        requires
            self.wf(),
            new.wf(),
            self.grows_to(new),
            node_denotes(self.ground(), self.nodes(), i, p),
        ensures
            node_denotes(new.ground(), new.nodes(), i, p),
    {
        lemma_denotes_grow(self.ground(), new.ground(), self.nodes(), new.nodes(), i, p);
    }

    /// Creates an empty context with no symbols, formulas, or interned backend terms.
    pub fn new() -> (context: Self)
        ensures
            context.wf(),
            !context.full(),
            context.used() == 0,
            context.meanings@ == Map::<Seq<char>, Definition>::empty(),
            context.backend.entries@ == Seq::<Entry>::empty(),
    {
        let context = LowerContext {
            bool_symbols: StringHashMap::new(),
            fun_symbols: StringHashMap::new(),
            arena: FormulaArena::new(),
            term_intern: Interner::new(),
            term_values: Vec::new(),
            definitions: StringHashMap::new(),
            backend: IncrementalBackend::new(),
            meanings: Ghost(Map::empty()),
        };
        proof {
            assert(context.definitions@.dom() =~= context.meanings@.dom());
        }
        context
    }

    /// Deduplicates `node` and returns its stable formula identifier.
    pub fn intern_formula(&mut self, node: FormulaNode) -> (result: Result<LowerFormulaId, Fault>)
        requires
            old(self).wf(),
            node_ok(
                node.node(),
                old(self).nodes().len() as int,
                old(self).ground().vars,
                old(self).ground().terms.len(),
            ),
        ensures
            final(self).wf(),
            old(self).grows_to(final(self)),
            final(self).ground() == old(self).ground(),
            charged(old(self).used(), final(self).used(), result, list_cost(node.node().parts.len())),
            result matches Err(fault) ==> fault is Full && final(self).full(),
            result matches Ok(id) ==> 0 <= id.id() < final(self).nodes().len()
                && final(self).nodes()[id.id()] == node.node(),
    {
        let ghost c0 = *self;
        let ghost view = node.node();
        proof {
            self.lemma_refl();
            self.arena.lemma_len();
            self.backend.euf.lemma_wf();
            assert forall|k: int| 0 <= k < view.parts.len() implies 0 <= (#[trigger] view.parts[k])
                <= u32::MAX by {}
        }
        match self.arena.intern_formula(node) {
            None => {
                proof {
                    self.lemma_full();
                }
                Err(Fault::Full("too many lowered formulas".to_owned()))
            },
            Some(id) => {
                proof {
                    let g = self.ground();
                    let n0 = c0.nodes();
                    let n1 = self.nodes();
                    assert(nodes_kept(n0, n1));
                    assert(nodes_ok(n1, g.vars, g.terms.len())) by {
                        assert forall|i: int| 0 <= i < n1.len() implies #[trigger] node_ok(
                            n1[i],
                            i,
                            g.vars,
                            g.terms.len(),
                        ) by {
                            if i < n0.len() {
                                assert(node_ok(n0[i], i, g.vars, g.terms.len()));
                            }
                        }
                    }
                    lemma_open_cost_same(c0.backend.formula_cache@, n0, n1, n0.len());
                    c0.backend.lemma_nodes_grow(n0, n1);
                    g.lemma_refl();
                    c0.lemma_tables_grow(self);
                }
                Ok(id)
            },
        }
    }

    /// Returns the canonical persistent `true` node.
    pub fn formula_true(&mut self, Ghost(p): Ghost<Claim>) -> (result: Result<LowerFormulaId, Fault>)
        requires
            old(self).wf(),
            forall|model: Model| #[trigger] p(model),
        ensures
            final(self).wf(),
            old(self).grows_to(final(self)),
            charged(old(self).used(), final(self).used(), result, list_cost(0)),
            result matches Err(fault) ==> fault is Full && final(self).full(),
            result matches Ok(id) ==> node_denotes(
                final(self).ground(),
                final(self).nodes(),
                id.id(),
                p,
            ),
    {
        self.intern_formula(FormulaNode::True)
    }

    /// Returns the canonical persistent `false` node.
    pub fn formula_false(&mut self, Ghost(p): Ghost<Claim>) -> (result: Result<
        LowerFormulaId,
        Fault,
    >)
        requires
            old(self).wf(),
            forall|model: Model| !#[trigger] p(model),
        ensures
            final(self).wf(),
            old(self).grows_to(final(self)),
            charged(old(self).used(), final(self).used(), result, list_cost(0)),
            result matches Err(fault) ==> fault is Full && final(self).full(),
            result matches Ok(id) ==> node_denotes(
                final(self).ground(),
                final(self).nodes(),
                id.id(),
                p,
            ),
    {
        self.intern_formula(FormulaNode::False)
    }

    /// Every formula of the list denotes its claim.
    pub open spec fn formulas_denote(&self, ids: Seq<LowerFormulaId>, ps: Seq<Claim>) -> bool {
        &&& ids.len() == ps.len()
        &&& forall|k: int|
            0 <= k < ids.len() ==> node_denotes(
                self.ground(),
                self.nodes(),
                (#[trigger] ids[k]).id(),
                ps[k],
            )
    }

    /// Every term of the list denotes its quantity.
    pub open spec fn terms_denote(&self, ids: Seq<TermId>, us: Seq<Quantity>) -> bool {
        &&& ids.len() == us.len()
        &&& forall|k: int|
            0 <= k < ids.len() ==> self.ground().term_denotes((#[trigger] ids[k]).id(), us[k])
    }

    /// The truth values of listed formulas are those of their claims.
    proof fn lemma_list_true(
        &self,
        more: Seq<NodeView>,
        ids: Seq<LowerFormulaId>,
        ps: Seq<Claim>,
        model: Model,
        m: Interp,
        a: Assignment,
    )
        requires
            self.wf(),
            nodes_kept(self.nodes(), more),
            self.formulas_denote(ids, ps),
            self.ground().good(model, m, a),
        ensures
            forall|k: int|
                0 <= k < ids.len() ==> node_true(
                    more,
                    self.ground().terms,
                    m,
                    a,
                    #[trigger] formula_ids(ids)[k],
                ) == ps[k](model),
    {
        let g = self.ground();
        g.lemma_refl();
        assert forall|k: int| 0 <= k < ids.len() implies node_true(
            more,
            g.terms,
            m,
            a,
            #[trigger] formula_ids(ids)[k],
        ) == ps[k](model) by {
            assert(node_denotes(g, self.nodes(), ids[k].id(), ps[k]));
            lemma_node_grow(g, g, self.nodes(), more, model, m, a, ids[k].id());
        }
    }

    /// Returns one persistent conjunction node with identity simplifications.
    pub fn and_formula(&mut self, formulas: Vec<LowerFormulaId>, Ghost(ps): Ghost<Seq<Claim>>) -> (
        result: Result<LowerFormulaId, Fault>)
        requires
            old(self).wf(),
            old(self).formulas_denote(formulas@, ps),
        ensures
            final(self).wf(),
            old(self).grows_to(final(self)),
            charged(old(self).used(), final(self).used(), result, list_cost(formulas@.len())),
            result matches Err(fault) ==> fault is Full && final(self).full(),
            result matches Ok(id) ==> node_denotes(
                final(self).ground(),
                final(self).nodes(),
                id.id(),
                all_claims(ps),
            ),
    {
        let ghost c0 = *self;
        let ghost ids = formulas@;
        let ghost p = all_claims(ps);
        proof {
            self.lemma_refl();
        }
        if formulas.len() == 0 {
            return self.formula_true(Ghost(p));
        }
        if formulas.len() == 1 {
            let id = formulas[0];
            proof {
                assert(node_denotes(self.ground(), self.nodes(), ids[0].id(), ps[0]));
                assert forall|model: Model| #[trigger] p(model) == ps[0](model) by {
                    if p(model) {
                        assert(ps[0](model));
                    }
                }
            }
            return Ok(id);
        }
        proof {
            self.lemma_parts(ids, ps, NodeKind::And);
        }
        let result = self.intern_formula(FormulaNode::And(formulas));
        proof {
            if let Ok(id) = result {
                let g = self.ground();
                let parts = formula_ids(ids);
                assert forall|model: Model, m: Interp, a: Assignment| #[trigger] g.good(
                    model,
                    m,
                    a,
                ) implies node_true(self.nodes(), g.terms, m, a, id.id()) == p(model) by {
                    c0.lemma_list_true(self.nodes(), ids, ps, model, m, a);
                    self.lemma_parts_below(id.id());
                    if p(model) {
                        assert forall|k: int| 0 <= k < parts.len() implies 0 <= (
                        #[trigger] parts[k]) < id.id() && node_true(
                            self.nodes(),
                            g.terms,
                            m,
                            a,
                            parts[k],
                        ) by {
                            assert(ps[k](model));
                        }
                    }
                    if node_true(self.nodes(), g.terms, m, a, id.id()) {
                        assert forall|k: int| 0 <= k < ps.len() implies (#[trigger] ps[k])(
                            model,
                        ) by {
                            assert(node_true(self.nodes(), g.terms, m, a, parts[k]));
                        }
                    }
                }
            }
        }
        result
    }

    /// The parts of stored formulas are earlier formulas, where they are formulas at all.
    proof fn lemma_parts_below(&self, i: int)
        requires
            self.wf(),
            0 <= i < self.nodes().len(),
        ensures
            node_ok(self.nodes()[i], i, self.ground().vars, self.ground().terms.len()),
    {
    }

    /// Formulas that denote something can be parts of a new node.
    proof fn lemma_parts(&self, ids: Seq<LowerFormulaId>, ps: Seq<Claim>, kind: NodeKind)
        requires
            self.formulas_denote(ids, ps),
            kind == NodeKind::And || kind == NodeKind::Or || kind == NodeKind::BoolEq,
        ensures
            node_ok(
                NodeView { kind, parts: formula_ids(ids) },
                self.nodes().len() as int,
                self.ground().vars,
                self.ground().terms.len(),
            ),
    {
        let parts = formula_ids(ids);
        assert forall|k: int| 0 <= k < parts.len() implies 0 <= (#[trigger] parts[k])
            < self.nodes().len() by {
            assert(node_denotes(self.ground(), self.nodes(), ids[k].id(), ps[k]));
        }
    }

    /// Returns one persistent disjunction node with identity simplifications.
    pub fn or_formula(&mut self, formulas: Vec<LowerFormulaId>, Ghost(ps): Ghost<Seq<Claim>>) -> (
        result: Result<LowerFormulaId, Fault>)
        requires
            old(self).wf(),
            old(self).formulas_denote(formulas@, ps),
        ensures
            final(self).wf(),
            old(self).grows_to(final(self)),
            charged(old(self).used(), final(self).used(), result, list_cost(formulas@.len())),
            result matches Err(fault) ==> fault is Full && final(self).full(),
            result matches Ok(id) ==> node_denotes(
                final(self).ground(),
                final(self).nodes(),
                id.id(),
                any_claim(ps),
            ),
    {
        let ghost c0 = *self;
        let ghost ids = formulas@;
        let ghost p = any_claim(ps);
        proof {
            self.lemma_refl();
        }
        if formulas.len() == 0 {
            return self.formula_false(Ghost(p));
        }
        if formulas.len() == 1 {
            let id = formulas[0];
            proof {
                assert(node_denotes(self.ground(), self.nodes(), ids[0].id(), ps[0]));
                assert forall|model: Model| #[trigger] p(model) == ps[0](model) by {
                    if ps[0](model) {
                        assert(p(model));
                    }
                }
            }
            return Ok(id);
        }
        proof {
            self.lemma_parts(ids, ps, NodeKind::Or);
        }
        let result = self.intern_formula(FormulaNode::Or(formulas));
        proof {
            if let Ok(id) = result {
                let g = self.ground();
                let parts = formula_ids(ids);
                assert forall|model: Model, m: Interp, a: Assignment| #[trigger] g.good(
                    model,
                    m,
                    a,
                ) implies node_true(self.nodes(), g.terms, m, a, id.id()) == p(model) by {
                    c0.lemma_list_true(self.nodes(), ids, ps, model, m, a);
                    self.lemma_parts_below(id.id());
                    assert(self.nodes()[id.id()].parts == parts);
                    if p(model) {
                        let k = choose|k: int| 0 <= k < ps.len() && (#[trigger] ps[k])(model);
                        assert(0 <= parts[k] < id.id() && node_true(
                            self.nodes(),
                            g.terms,
                            m,
                            a,
                            parts[k],
                        ));
                    }
                    if node_true(self.nodes(), g.terms, m, a, id.id()) {
                        let k = choose|k: int|
                            0 <= k < parts.len() && 0 <= (#[trigger] parts[k]) < id.id()
                                && node_true(self.nodes(), g.terms, m, a, parts[k]);
                        assert(ps[k](model));
                    }
                }
            }
        }
        result
    }

    /// Returns one persistent Boolean equivalence chain.
    pub fn bool_eq(&mut self, formulas: Vec<LowerFormulaId>, Ghost(ps): Ghost<Seq<Claim>>) -> (result:
        Result<LowerFormulaId, Fault>)
        requires
            old(self).wf(),
            old(self).formulas_denote(formulas@, ps),
        ensures
            final(self).wf(),
            old(self).grows_to(final(self)),
            charged(old(self).used(), final(self).used(), result, list_cost(formulas@.len())),
            result matches Err(fault) ==> fault is Full && final(self).full(),
            result matches Ok(id) ==> node_denotes(
                final(self).ground(),
                final(self).nodes(),
                id.id(),
                claims_chain(ps),
            ),
    {
        let ghost c0 = *self;
        let ghost ids = formulas@;
        let ghost p = claims_chain(ps);
        proof {
            self.lemma_refl();
        }
        if formulas.len() <= 1 {
            return self.formula_true(Ghost(p));
        }
        proof {
            self.lemma_parts(ids, ps, NodeKind::BoolEq);
        }
        let result = self.intern_formula(FormulaNode::BoolEq(formulas));
        proof {
            if let Ok(id) = result {
                let g = self.ground();
                let parts = formula_ids(ids);
                let nodes = self.nodes();
                assert forall|model: Model, m: Interp, a: Assignment| #[trigger] g.good(
                    model,
                    m,
                    a,
                ) implies node_true(nodes, g.terms, m, a, id.id()) == p(model) by {
                    c0.lemma_list_true(nodes, ids, ps, model, m, a);
                    self.lemma_parts_below(id.id());
                    assert(nodes[id.id()].parts == parts);
                    if p(model) {
                        assert forall|k: int| 0 <= k && k + 1 < parts.len() implies 0 <= (
                        #[trigger] parts[k]) < id.id() && 0 <= parts[k + 1] < id.id() && node_true(
                            nodes,
                            g.terms,
                            m,
                            a,
                            parts[k],
                        ) == node_true(nodes, g.terms, m, a, parts[k + 1]) by {
                            assert(ps[k](model) == ps[k + 1](model));
                            assert(0 <= parts[k + 1]);
                        }
                    }
                    if node_true(nodes, g.terms, m, a, id.id()) {
                        assert forall|k: int| 0 <= k && k + 1 < ps.len() implies (#[trigger] ps[k])(
                            model,
                        ) == ps[k + 1](model) by {
                            assert(node_true(nodes, g.terms, m, a, parts[k]) == node_true(
                                nodes,
                                g.terms,
                                m,
                                a,
                                parts[k + 1],
                            ));
                        }
                    }
                }
            }
        }
        result
    }

    /// Returns one persistent term equality chain.
    pub fn term_eq(&mut self, terms: Vec<TermId>, Ghost(us): Ghost<Seq<Quantity>>) -> (result: Result<
        LowerFormulaId,
        Fault,
    >)
        requires
            old(self).wf(),
            old(self).terms_denote(terms@, us),
        ensures
            final(self).wf(),
            old(self).grows_to(final(self)),
            charged(old(self).used(), final(self).used(), result, list_cost(terms@.len())),
            result matches Err(fault) ==> fault is Full && final(self).full(),
            result matches Ok(id) ==> node_denotes(
                final(self).ground(),
                final(self).nodes(),
                id.id(),
                quantities_chain(us),
            ),
    {
        let ghost ids = terms@;
        let ghost p = quantities_chain(us);
        if terms.len() <= 1 {
            return self.formula_true(Ghost(p));
        }
        proof {
            self.lemma_term_parts(ids, us, NodeKind::TermEq);
        }
        let result = self.intern_formula(FormulaNode::TermEq(terms));
        proof {
            if let Ok(id) = result {
                let g = self.ground();
                let parts = term_ids(ids);
                let nodes = self.nodes();
                assert forall|model: Model, m: Interp, a: Assignment| #[trigger] g.good(
                    model,
                    m,
                    a,
                ) implies node_true(nodes, g.terms, m, a, id.id()) == p(model) by {
                    assert(nodes[id.id()].parts == parts);
                    assert forall|k: int| 0 <= k < parts.len() implies value(
                        g.terms,
                        m,
                        #[trigger] parts[k],
                    ) == us[k](model) by {
                        assert(g.term_denotes(ids[k].id(), us[k]));
                    }
                    if p(model) {
                        assert forall|k: int| 0 <= k && k + 1 < parts.len() implies value(
                            g.terms,
                            m,
                            #[trigger] parts[k],
                        ) == value(g.terms, m, parts[k + 1]) by {
                            assert(us[k](model) == us[k + 1](model));
                        }
                    }
                    if node_true(nodes, g.terms, m, a, id.id()) {
                        assert forall|k: int| 0 <= k && k + 1 < us.len() implies (#[trigger] us[k])(
                            model,
                        ) == us[k + 1](model) by {
                            assert(value(g.terms, m, parts[k]) == value(g.terms, m, parts[k + 1]));
                        }
                    }
                }
            }
        }
        result
    }

    /// Terms that denote something can be parts of a new node.
    proof fn lemma_term_parts(&self, ids: Seq<TermId>, us: Seq<Quantity>, kind: NodeKind)
        requires
            self.terms_denote(ids, us),
            kind == NodeKind::TermEq || kind == NodeKind::Distinct,
        ensures
            node_ok(
                NodeView { kind, parts: term_ids(ids) },
                self.nodes().len() as int,
                self.ground().vars,
                self.ground().terms.len(),
            ),
    {
        let parts = term_ids(ids);
        assert forall|k: int| 0 <= k < parts.len() implies 0 <= (#[trigger] parts[k])
            < self.ground().terms.len() by {
            assert(self.ground().term_denotes(ids[k].id(), us[k]));
        }
    }

    /// Returns one persistent pairwise disequality formula.
    pub fn distinct(&mut self, terms: Vec<TermId>, Ghost(us): Ghost<Seq<Quantity>>) -> (result: Result<
        LowerFormulaId,
        Fault,
    >)
        requires
            old(self).wf(),
            old(self).terms_denote(terms@, us),
        ensures
            final(self).wf(),
            old(self).grows_to(final(self)),
            charged(old(self).used(), final(self).used(), result, list_cost(terms@.len())),
            result matches Err(fault) ==> fault is Full && final(self).full(),
            result matches Ok(id) ==> node_denotes(
                final(self).ground(),
                final(self).nodes(),
                id.id(),
                quantities_distinct(us),
            ),
    {
        let ghost ids = terms@;
        let ghost p = quantities_distinct(us);
        if terms.len() <= 1 {
            return self.formula_true(Ghost(p));
        }
        proof {
            self.lemma_term_parts(ids, us, NodeKind::Distinct);
        }
        let result = self.intern_formula(FormulaNode::Distinct(terms));
        proof {
            if let Ok(id) = result {
                let g = self.ground();
                let parts = term_ids(ids);
                let nodes = self.nodes();
                assert forall|model: Model, m: Interp, a: Assignment| #[trigger] g.good(
                    model,
                    m,
                    a,
                ) implies node_true(nodes, g.terms, m, a, id.id()) == p(model) by {
                    assert(nodes[id.id()].parts == parts);
                    assert forall|k: int| 0 <= k < parts.len() implies value(
                        g.terms,
                        m,
                        #[trigger] parts[k],
                    ) == us[k](model) by {
                        assert(g.term_denotes(ids[k].id(), us[k]));
                    }
                    if p(model) {
                        assert forall|j: int, k: int| 0 <= j < k < parts.len() implies value(
                            g.terms,
                            m,
                            #[trigger] parts[j],
                        ) != value(g.terms, m, #[trigger] parts[k]) by {
                            assert(us[j](model) != us[k](model));
                        }
                    }
                    if node_true(nodes, g.terms, m, a, id.id()) {
                        assert forall|j: int, k: int| 0 <= j < k < us.len() implies (
                        #[trigger] us[j])(model) != (#[trigger] us[k])(model) by {
                            assert(value(g.terms, m, parts[j]) != value(g.terms, m, parts[k]));
                        }
                    }
                }
            }
        }
        result
    }

    /// Returns one persistent formula-valued conditional with trivial branch elimination.
    pub fn formula_ite(
        &mut self,
        cond: LowerFormulaId,
        then_branch: LowerFormulaId,
        else_branch: LowerFormulaId,
        Ghost(c): Ghost<Claim>,
        Ghost(t): Ghost<Claim>,
        Ghost(e): Ghost<Claim>,
        Ghost(p): Ghost<Claim>,
    ) -> (result: Result<LowerFormulaId, Fault>)
        requires
            old(self).wf(),
            node_denotes(old(self).ground(), old(self).nodes(), cond.id(), c),
            node_denotes(old(self).ground(), old(self).nodes(), then_branch.id(), t),
            node_denotes(old(self).ground(), old(self).nodes(), else_branch.id(), e),
            forall|model: Model| #[trigger]
                p(model) == if c(model) {
                    t(model)
                } else {
                    e(model)
                },
        ensures
            final(self).wf(),
            old(self).grows_to(final(self)),
            charged(old(self).used(), final(self).used(), result, list_cost(3)),
            result matches Err(fault) ==> fault is Full && final(self).full(),
            result matches Ok(id) ==> node_denotes(
                final(self).ground(),
                final(self).nodes(),
                id.id(),
                p,
            ),
    {
        let ghost c0 = *self;
        proof {
            self.lemma_refl();
            lemma_formula_id(then_branch, else_branch);
        }
        if then_branch == else_branch {
            return Ok(then_branch);
        }
        let result = self.intern_formula(FormulaNode::FormulaIte { cond, then_branch, else_branch });
        proof {
            if let Ok(id) = result {
                let g = self.ground();
                g.lemma_refl();
                let nodes = self.nodes();
                let parts = nodes[id.id()].parts;
                assert(parts[0] == cond.id() && parts[1] == then_branch.id() && parts[2]
                    == else_branch.id());
                assert forall|model: Model, m: Interp, a: Assignment| #[trigger] g.good(
                    model,
                    m,
                    a,
                ) implies node_true(nodes, g.terms, m, a, id.id()) == p(model) by {
                    self.lemma_parts_below(id.id());
                    lemma_node_grow(g, g, c0.nodes(), nodes, model, m, a, cond.id());
                    lemma_node_grow(g, g, c0.nodes(), nodes, model, m, a, then_branch.id());
                    lemma_node_grow(g, g, c0.nodes(), nodes, model, m, a, else_branch.id());
                }
            }
        }
        result
    }

    /// Returns one persistent negation.
    pub fn formula_not(&mut self, inner: LowerFormulaId, Ghost(p): Ghost<Claim>, Ghost(q): Ghost<Claim>) -> (
        result: Result<LowerFormulaId, Fault>)
        requires
            old(self).wf(),
            node_denotes(old(self).ground(), old(self).nodes(), inner.id(), p),
            forall|model: Model| #[trigger] q(model) == !p(model),
        ensures
            final(self).wf(),
            old(self).grows_to(final(self)),
            charged(old(self).used(), final(self).used(), result, list_cost(1)),
            result matches Err(fault) ==> fault is Full && final(self).full(),
            result matches Ok(id) ==> node_denotes(
                final(self).ground(),
                final(self).nodes(),
                id.id(),
                q,
            ),
    {
        let ghost c0 = *self;
        let result = self.intern_formula(FormulaNode::Not(inner));
        proof {
            if let Ok(id) = result {
                let g = self.ground();
                g.lemma_refl();
                let nodes = self.nodes();
                assert(nodes[id.id()].parts[0] == inner.id());
                assert forall|model: Model, m: Interp, a: Assignment| #[trigger] g.good(
                    model,
                    m,
                    a,
                ) implies node_true(nodes, g.terms, m, a, id.id()) == q(model) by {
                    self.lemma_parts_below(id.id());
                    lemma_node_grow(g, g, c0.nodes(), nodes, model, m, a, inner.id());
                }
            }
        }
        result
    }

    /// Returns one persistent implication.
    pub fn formula_implies(
        &mut self,
        premise: LowerFormulaId,
        conclusion: LowerFormulaId,
        Ghost(p): Ghost<Claim>,
        Ghost(q): Ghost<Claim>,
        Ghost(r): Ghost<Claim>,
    ) -> (result: Result<LowerFormulaId, Fault>)
        requires
            old(self).wf(),
            node_denotes(old(self).ground(), old(self).nodes(), premise.id(), p),
            node_denotes(old(self).ground(), old(self).nodes(), conclusion.id(), q),
            forall|model: Model| #[trigger] r(model) == (p(model) ==> q(model)),
        ensures
            final(self).wf(),
            old(self).grows_to(final(self)),
            charged(old(self).used(), final(self).used(), result, list_cost(2)),
            result matches Err(fault) ==> fault is Full && final(self).full(),
            result matches Ok(id) ==> node_denotes(
                final(self).ground(),
                final(self).nodes(),
                id.id(),
                r,
            ),
    {
        let ghost c0 = *self;
        let result = self.intern_formula(FormulaNode::Implies(premise, conclusion));
        proof {
            if let Ok(id) = result {
                let g = self.ground();
                g.lemma_refl();
                let nodes = self.nodes();
                assert(nodes[id.id()].parts[0] == premise.id());
                assert(nodes[id.id()].parts[1] == conclusion.id());
                assert forall|model: Model, m: Interp, a: Assignment| #[trigger] g.good(
                    model,
                    m,
                    a,
                ) implies node_true(nodes, g.terms, m, a, id.id()) == r(model) by {
                    self.lemma_parts_below(id.id());
                    lemma_node_grow(g, g, c0.nodes(), nodes, model, m, a, premise.id());
                    lemma_node_grow(g, g, c0.nodes(), nodes, model, m, a, conclusion.id());
                }
            }
        }
        result
    }
}

} // verus!
