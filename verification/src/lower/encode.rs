//! Encoding of persistent formulas, names and terms into the backend.

use crate::lower::backend::{
    all_true, any_true, lemma_matches_grow, value_matches, value_ok, value_true, values_match,
    values_ok, BoolValue, Fault, IncrementalBackend,
};
use crate::lower::cost::{encoded, lemma_open_cost_member, lemma_open_cost_set, node_cost};
use crate::lower::denote::Model;
use crate::lower::ground::Ground;
use crate::lower::nodes::{
    formula_ids, node_ok, node_true, FormulaArena, FormulaNode, LowerFormulaId, NodeKind, NodeView,
};
use crate::sat::{Assignment, Lit};
use crate::semantics::{value, values, Interp, TermView};
use vstd::prelude::*;

verus! {

/// The key of an activation in the table of guards.
pub open spec fn guard_key(activation: u32) -> Seq<u32> {
    seq![activation]
}

/// The cost of a formula with `k` parts covers what every kind of formula takes.
proof fn lemma_cost_covers(k: nat)
    ensures
        3 * k + 1 <= 4 * (k * k) + 8,
        k * k + 1 <= 4 * (k * k) + 8,
        k + 1 <= 4 * (k * k) + 8,
        3 <= 4 * (k * k) + 8,
{
    assert(k * k >= 0) by (nonlinear_arith);
    assert(k > 0 ==> k <= k * k) by (nonlinear_arith);
}

impl IncrementalBackend {
    /// Materializes one persistent formula node into clauses and theory guards.
    pub fn formula(&mut self, arena: &FormulaArena, id: LowerFormulaId) -> (result: Result<
        BoolValue,
        Fault,
    >)
        requires
            arena.wf(),
            old(self).wf(arena.nodes()),
            0 <= id.id() < arena.nodes().len(),
        ensures
            final(self).wf(arena.nodes()),
            old(self).grows_to(final(self)),
            final(self).bools == old(self).bools,
            final(self).funs == old(self).funs,
            final(self).ground().terms == old(self).ground().terms,
            final(self).solid() <= old(self).load(arena.nodes()),
            result is Ok ==> final(self).load(arena.nodes()) <= old(self).load(arena.nodes()),
            forall|j: int|
                j > id.id() ==> #[trigger] encoded(final(self).formula_cache@, j) == encoded(
                    old(self).formula_cache@,
                    j,
                ),
            result matches Err(fault) ==> fault is Full && final(self).full(),
            result matches Ok(value) ==> value_matches(
                final(self).ground(),
                arena.nodes(),
                value,
                id.id(),
            ),
        decreases id.id(), 2nat,
    {
        let ghost b0 = *self;
        let ghost nodes = arena.nodes();
        proof {
            self.lemma_refl();
            assert(node_ok(
                nodes[id.id()],
                id.id(),
                self.ground().vars,
                self.ground().terms.len(),
            ));
        }
        if id.index() < self.formula_cache.len() {
            if let Some(value) = self.formula_cache[id.index()] {
                proof {
                    assert(self.formula_cache@[id.id()] is Some);
                }
                return Ok(value);
            }
        }
        let value = match self.encode(arena, id) {
            Err(fault) => return Err(fault),
            Ok(value) => value,
        };
        let ghost b1 = *self;
        while self.formula_cache.len() <= id.index()
            invariant
                b1.wf(nodes),
                *self == (IncrementalBackend { formula_cache: self.formula_cache, ..b1 }),
                b1.formula_cache@.len() <= self.formula_cache@.len(),
                id.id() < nodes.len(),
                self.formula_cache@.len() <= nodes.len(),
                forall|i: int|
                    0 <= i < self.formula_cache@.len() ==> #[trigger] self.formula_cache@[i] == if i
                        < b1.formula_cache@.len() {
                        b1.formula_cache@[i]
                    } else {
                        None
                    },
            decreases nodes.len() - self.formula_cache@.len(),
        {
            self.formula_cache.push(None);
        }
        self.formula_cache.set(id.index(), Some(value));
        proof {
            assert(self.ground() == b1.ground());
            assert forall|j: int| j != id.id() implies #[trigger] encoded(self.formula_cache@, j)
                == encoded(b1.formula_cache@, j) by {}
            assert(encoded(self.formula_cache@, id.id()));
            lemma_open_cost_set(
                b1.formula_cache@,
                self.formula_cache@,
                nodes,
                id.id(),
                nodes.len(),
            );
            assert forall|i: int|
                0 <= i < self.formula_cache@.len() && (#[trigger] self.formula_cache@[i])
                    is Some implies value_matches(
                self.ground(),
                nodes,
                self.formula_cache@[i]->0,
                i,
            ) by {
                if i != id.id() {
                    assert(b1.formula_cache@[i] is Some);
                }
            }
            assert(self.cache_ok(nodes));
            assert(self.keys_ok()) by {
                assert(b1.keys_ok());
            }
            assert(self.entries_ok()) by {
                assert(b1.entries_ok());
            }
        }
        Ok(value)
    }

    /// Encodes the formulas of a list, all of them below `parent`.
    fn formula_list(
        &mut self,
        arena: &FormulaArena,
        ids: &Vec<LowerFormulaId>,
        Ghost(parent): Ghost<int>,
    ) -> (result: Result<Vec<BoolValue>, Fault>)
        requires
            arena.wf(),
            old(self).wf(arena.nodes()),
            0 <= parent < arena.nodes().len(),
            forall|k: int| 0 <= k < ids@.len() ==> 0 <= (#[trigger] ids@[k]).id() < parent,
        ensures
            final(self).wf(arena.nodes()),
            old(self).grows_to(final(self)),
            final(self).bools == old(self).bools,
            final(self).funs == old(self).funs,
            final(self).ground().terms == old(self).ground().terms,
            final(self).solid() <= old(self).load(arena.nodes()),
            result is Ok ==> final(self).load(arena.nodes()) <= old(self).load(arena.nodes()),
            forall|j: int|
                j >= parent ==> #[trigger] encoded(final(self).formula_cache@, j) == encoded(
                    old(self).formula_cache@,
                    j,
                ),
            result matches Err(fault) ==> fault is Full && final(self).full(),
            result matches Ok(values) ==> values_match(
                final(self).ground(),
                arena.nodes(),
                values@,
                formula_ids(ids@),
            ),
        decreases parent, 0nat,
    {
        let ghost b0 = *self;
        let ghost nodes = arena.nodes();
        let mut values: Vec<BoolValue> = Vec::new();
        let mut i: usize = 0;
        proof {
            self.lemma_refl();
        }
        while i < ids.len()
            invariant
                0 <= i <= ids.len(),
                b0 == *old(self),
                arena.wf(),
                nodes == arena.nodes(),
                b0.wf(nodes),
                self.wf(nodes),
                b0.grows_to(self),
                self.load(nodes) <= b0.load(nodes),
                forall|j: int|
                    j >= parent ==> #[trigger] encoded(self.formula_cache@, j) == encoded(
                        b0.formula_cache@,
                        j,
                    ),
                self.bools == b0.bools,
                self.funs == b0.funs,
                self.ground().terms == b0.ground().terms,
                0 <= parent < nodes.len(),
                forall|k: int| 0 <= k < ids@.len() ==> 0 <= (#[trigger] ids@[k]).id() < parent,
                values@.len() == i,
                forall|k: int|
                    0 <= k < i ==> value_matches(
                        self.ground(),
                        nodes,
                        #[trigger] values@[k],
                        ids@[k].id(),
                    ),
            decreases ids.len() - i,
        {
            let ghost b1 = *self;
            proof {
                assert(0 <= ids@[i as int].id() < parent);
            }
            match self.formula(arena, ids[i]) {
                Err(fault) => {
                    proof {
                        b0.lemma_trans(&b1, self);
                    }
                    return Err(fault);
                },
                Ok(value) => {
                    proof {
                        b0.lemma_trans(&b1, self);
                        assert forall|k: int| 0 <= k < i implies value_matches(
                            self.ground(),
                            nodes,
                            #[trigger] values@[k],
                            ids@[k].id(),
                        ) by {
                            assert(0 <= ids@[k].id() < parent);
                            lemma_matches_grow(
                                b1.ground(),
                                self.ground(),
                                nodes,
                                nodes,
                                values@[k],
                                ids@[k].id(),
                            );
                        }
                    }
                    values.push(value);
                },
            }
            i += 1;
        }
        proof {
            assert(values_match(self.ground(), nodes, values@, formula_ids(ids@)));
        }
        Ok(values)
    }

    /// Encodes one formula node that has not been encoded yet.
    fn encode(&mut self, arena: &FormulaArena, id: LowerFormulaId) -> (result: Result<
        BoolValue,
        Fault,
    >)
        requires
            arena.wf(),
            old(self).wf(arena.nodes()),
            0 <= id.id() < arena.nodes().len(),
            !encoded(old(self).formula_cache@, id.id()),
        ensures
            final(self).wf(arena.nodes()),
            old(self).grows_to(final(self)),
            final(self).bools == old(self).bools,
            final(self).funs == old(self).funs,
            final(self).ground().terms == old(self).ground().terms,
            final(self).solid() <= old(self).load(arena.nodes()),
            result is Ok ==> final(self).load(arena.nodes()) <= old(self).load(
                arena.nodes(),
            ) + node_cost(arena.nodes()[id.id()]),
            forall|j: int|
                j >= id.id() ==> #[trigger] encoded(final(self).formula_cache@, j) == encoded(
                    old(self).formula_cache@,
                    j,
                ),
            result matches Err(fault) ==> fault is Full && final(self).full(),
            result matches Ok(value) ==> value_matches(
                final(self).ground(),
                arena.nodes(),
                value,
                id.id(),
            ),
        decreases id.id(), 1nat,
    {
        let ghost b0 = *self;
        let ghost nodes = arena.nodes();
        let ghost terms = self.ground().terms;
        let ghost i = id.id();
        let ghost parts = nodes[i].parts;
        proof {
            self.lemma_refl();
            assert(node_ok(nodes[i], i, self.ground().vars, self.ground().terms.len()));
        }
        match arena.formula(id) {
            FormulaNode::True => Ok(BoolValue::Const(true)),
            FormulaNode::False => Ok(BoolValue::Const(false)),
            FormulaNode::BoolSymbol(var) => {
                let lit = Lit::new(*var, false);
                proof {
                    assert(parts[0] == var.0);
                }
                Ok(BoolValue::Lit(lit))
            },
            FormulaNode::Not(inner) => {
                proof {
                    assert(parts[0] == inner.id());
                }
                match self.formula(arena, *inner) {
                    Err(fault) => Err(fault),
                    Ok(value) => {
                        let negated = value.not();
                        proof {
                            let g = self.ground();
                            assert(value_ok(negated, g.vars));
                            assert forall|model: Model, m: Interp, a: Assignment| #[trigger]
                                g.good(model, m, a) implies value_true(a, negated) == node_true(
                                nodes,
                                g.terms,
                                m,
                                a,
                                i,
                            ) by {
                                assert(value_true(a, negated) == !value_true(a, value));
                            }
                        }
                        Ok(negated)
                    },
                }
            },
            FormulaNode::And(ids) => {
                proof {
                    assert forall|k: int| 0 <= k < ids@.len() implies 0 <= (
                    #[trigger] ids@[k]).id() < i by {
                        assert(parts[k] == ids@[k].id());
                    }
                }
                let values = match self.formula_list(arena, ids, Ghost(i)) {
                    Err(fault) => return Err(fault),
                    Ok(values) => values,
                };
                let ghost b1 = *self;
                proof {
                    lemma_matching_ok(b1.ground(), nodes, values@, parts);
                }
                proof {
                    lemma_open_cost_member(self.formula_cache@, nodes, i, nodes.len());
                    lemma_cost_covers(parts.len());
                }
                let result = self.and_values(&values, Ghost(nodes));
                proof {
                    b0.lemma_trans(&b1, self);
                    let g = self.ground();
                    assert forall|model: Model, m: Interp, a: Assignment| #[trigger]
                        g.good(model, m, a) implies all_true(a, values@) == node_true(
                        nodes,
                        terms,
                        m,
                        a,
                        i,
                    ) by {
                        b1.ground().lemma_good_smaller(g, model, m, a);
                        assert forall|k: int| 0 <= k < parts.len() implies value_true(
                            a,
                            values@[k],
                        ) == node_true(nodes, terms, m, a, #[trigger] parts[k]) by {
                            assert(value_matches(b1.ground(), nodes, values@[k], parts[k]));
                        }
                        if all_true(a, values@) {
                            assert forall|k: int| 0 <= k < parts.len() implies 0 <= (
                            #[trigger] parts[k]) < i && node_true(nodes, terms, m, a, parts[k]) by {
                                assert(value_true(a, values@[k]));
                            }
                        }
                        if node_true(nodes, terms, m, a, i) {
                            assert forall|k: int| 0 <= k < values@.len() implies value_true(
                                a,
                                #[trigger] values@[k],
                            ) by {
                                assert(node_true(nodes, terms, m, a, parts[k]));
                            }
                        }
                    }
                }
                result
            },
            FormulaNode::Or(ids) => {
                proof {
                    assert forall|k: int| 0 <= k < ids@.len() implies 0 <= (
                    #[trigger] ids@[k]).id() < i by {
                        assert(parts[k] == ids@[k].id());
                    }
                }
                let values = match self.formula_list(arena, ids, Ghost(i)) {
                    Err(fault) => return Err(fault),
                    Ok(values) => values,
                };
                let ghost b1 = *self;
                proof {
                    lemma_matching_ok(b1.ground(), nodes, values@, parts);
                }
                proof {
                    lemma_open_cost_member(self.formula_cache@, nodes, i, nodes.len());
                    lemma_cost_covers(parts.len());
                }
                let result = self.or_values(&values, Ghost(nodes));
                proof {
                    b0.lemma_trans(&b1, self);
                    let g = self.ground();
                    assert forall|model: Model, m: Interp, a: Assignment| #[trigger]
                        g.good(model, m, a) implies any_true(a, values@) == node_true(
                        nodes,
                        terms,
                        m,
                        a,
                        i,
                    ) by {
                        b1.ground().lemma_good_smaller(g, model, m, a);
                        assert forall|k: int| 0 <= k < parts.len() implies value_true(
                            a,
                            values@[k],
                        ) == node_true(nodes, terms, m, a, #[trigger] parts[k]) by {
                            assert(value_matches(b1.ground(), nodes, values@[k], parts[k]));
                        }
                        if any_true(a, values@) {
                            let k = choose|k: int|
                                0 <= k < values@.len() && value_true(a, #[trigger] values@[k]);
                            assert(0 <= parts[k] < i && node_true(nodes, terms, m, a, parts[k]));
                        }
                        if node_true(nodes, terms, m, a, i) {
                            let k = choose|k: int|
                                0 <= k < parts.len() && 0 <= (#[trigger] parts[k]) < i && node_true(
                                    nodes,
                                    terms,
                                    m,
                                    a,
                                    parts[k],
                                );
                            assert(value_true(a, values@[k]));
                        }
                    }
                }
                result
            },
            FormulaNode::Implies(premise, conclusion) => {
                proof {
                    assert(parts[0] == premise.id());
                    assert(parts[1] == conclusion.id());
                }
                let first = match self.formula(arena, *premise) {
                    Err(fault) => return Err(fault),
                    Ok(value) => value,
                };
                let ghost b1 = *self;
                let second = match self.formula(arena, *conclusion) {
                    Err(fault) => {
                        proof {
                            b0.lemma_trans(&b1, self);
                        }
                        return Err(fault);
                    },
                    Ok(value) => value,
                };
                let ghost b2 = *self;
                let not_first = first.not();
                proof {
                    b0.lemma_trans(&b1, &b2);
                    lemma_matches_grow(b1.ground(), b2.ground(), nodes, nodes, first, parts[0]);
                    assert(value_ok(not_first, b2.ground().vars));
                }
                proof {
                    lemma_open_cost_member(self.formula_cache@, nodes, i, nodes.len());
                    lemma_cost_covers(parts.len());
                }
                let result = self.or_two(not_first, second, Ghost(nodes));
                proof {
                    b0.lemma_trans(&b2, self);
                    let g = self.ground();
                    assert forall|model: Model, m: Interp, a: Assignment| #[trigger]
                        g.good(model, m, a) implies (value_true(a, not_first) || value_true(
                        a,
                        second,
                    )) == node_true(nodes, terms, m, a, i) by {
                        b2.ground().lemma_good_smaller(g, model, m, a);
                        assert(value_true(a, not_first) == !value_true(a, first));
                    }
                }
                result
            },
            FormulaNode::BoolEq(ids) => {
                proof {
                    assert forall|k: int| 0 <= k < ids@.len() implies 0 <= (
                    #[trigger] ids@[k]).id() < i by {
                        assert(parts[k] == ids@[k].id());
                    }
                }
                let values = match self.formula_list(arena, ids, Ghost(i)) {
                    Err(fault) => return Err(fault),
                    Ok(values) => values,
                };
                let ghost b1 = *self;
                proof {
                    lemma_matching_ok(b1.ground(), nodes, values@, parts);
                }
                proof {
                    lemma_open_cost_member(self.formula_cache@, nodes, i, nodes.len());
                    lemma_cost_covers(parts.len());
                }
                let result = self.chain_equivalence(&values, Ghost(nodes));
                proof {
                    b0.lemma_trans(&b1, self);
                    let g = self.ground();
                    assert forall|model: Model, m: Interp, a: Assignment| #[trigger]
                        g.good(model, m, a) implies (forall|k: int|
                        0 <= k && k + 1 < values@.len() ==> value_true(a, #[trigger] values@[k])
                            == value_true(a, values@[k + 1])) == node_true(
                        nodes,
                        terms,
                        m,
                        a,
                        i,
                    ) by {
                        b1.ground().lemma_good_smaller(g, model, m, a);
                        assert forall|k: int| 0 <= k < parts.len() implies value_true(
                            a,
                            #[trigger] values@[k],
                        ) == node_true(nodes, terms, m, a, parts[k]) by {
                            assert(value_matches(b1.ground(), nodes, values@[k], parts[k]));
                        }
                        lemma_chain_same(nodes, terms, m, a, i, values@);
                    }
                }
                result
            },
            FormulaNode::TermEq(ids) => {
                proof {
                    assert forall|k: int| 0 <= k < ids@.len() implies (#[trigger] ids@[k]).id()
                        < terms.len() by {
                        assert(parts[k] == ids@[k].id());
                    }
                }
                proof {
                    lemma_open_cost_member(self.formula_cache@, nodes, i, nodes.len());
                    lemma_cost_covers(parts.len());
                }
                let result = self.chain_term_relation(ids, Ghost(nodes));
                proof {
                    let g = self.ground();
                    assert forall|m: Interp, a: Assignment| #[trigger] node_true(
                        nodes,
                        terms,
                        m,
                        a,
                        i,
                    ) == (forall|k: int|
                        0 <= k && k + 1 < ids@.len() ==> value(terms, m, (#[trigger] ids@[k]).id())
                            == value(terms, m, ids@[k + 1].id())) by {
                        if node_true(nodes, terms, m, a, i) {
                            assert forall|k: int| 0 <= k && k + 1 < ids@.len() implies value(
                                terms,
                                m,
                                (#[trigger] ids@[k]).id(),
                            ) == value(terms, m, ids@[k + 1].id()) by {
                                assert(value(terms, m, parts[k]) == value(terms, m, parts[k + 1]));
                            }
                        }
                        if forall|k: int|
                            0 <= k && k + 1 < ids@.len() ==> value(
                                terms,
                                m,
                                (#[trigger] ids@[k]).id(),
                            ) == value(terms, m, ids@[k + 1].id()) {
                            assert forall|k: int| 0 <= k && k + 1 < parts.len() implies value(
                                terms,
                                m,
                                #[trigger] parts[k],
                            ) == value(terms, m, parts[k + 1]) by {
                                assert(parts[k] == ids@[k].id());
                                assert(parts[k + 1] == ids@[k + 1].id());
                            }
                        }
                    }
                }
                result
            },
            FormulaNode::Distinct(ids) => {
                proof {
                    assert forall|k: int| 0 <= k < ids@.len() implies (#[trigger] ids@[k]).id()
                        < terms.len() by {
                        assert(parts[k] == ids@[k].id());
                    }
                }
                proof {
                    lemma_open_cost_member(self.formula_cache@, nodes, i, nodes.len());
                    lemma_cost_covers(parts.len());
                }
                let result = self.pairwise_distinct(ids, Ghost(nodes));
                proof {
                    assert forall|m: Interp, a: Assignment| #[trigger] node_true(
                        nodes,
                        terms,
                        m,
                        a,
                        i,
                    ) == (forall|j: int, k: int|
                        0 <= j < k < ids@.len() ==> value(terms, m, (#[trigger] ids@[j]).id())
                            != value(terms, m, (#[trigger] ids@[k]).id())) by {
                        if node_true(nodes, terms, m, a, i) {
                            assert forall|j: int, k: int| 0 <= j < k < ids@.len() implies value(
                                terms,
                                m,
                                (#[trigger] ids@[j]).id(),
                            ) != value(terms, m, (#[trigger] ids@[k]).id()) by {
                                assert(value(terms, m, parts[j]) != value(terms, m, parts[k]));
                            }
                        }
                        if forall|j: int, k: int|
                            0 <= j < k < ids@.len() ==> value(terms, m, (#[trigger] ids@[j]).id())
                                != value(terms, m, (#[trigger] ids@[k]).id()) {
                            assert forall|j: int, k: int| 0 <= j < k < parts.len() implies value(
                                terms,
                                m,
                                #[trigger] parts[j],
                            ) != value(terms, m, #[trigger] parts[k]) by {
                                assert(parts[j] == ids@[j].id());
                                assert(parts[k] == ids@[k].id());
                            }
                        }
                    }
                }
                result
            },
            FormulaNode::FormulaIte { cond, then_branch, else_branch } => {
                proof {
                    assert(parts[0] == cond.id());
                    assert(parts[1] == then_branch.id());
                    assert(parts[2] == else_branch.id());
                }
                let c = match self.formula(arena, *cond) {
                    Err(fault) => return Err(fault),
                    Ok(value) => value,
                };
                let ghost b1 = *self;
                let t = match self.formula(arena, *then_branch) {
                    Err(fault) => {
                        proof {
                            b0.lemma_trans(&b1, self);
                        }
                        return Err(fault);
                    },
                    Ok(value) => value,
                };
                let ghost b2 = *self;
                proof {
                    b0.lemma_trans(&b1, &b2);
                    lemma_matches_grow(b1.ground(), b2.ground(), nodes, nodes, c, parts[0]);
                }
                let e = match self.formula(arena, *else_branch) {
                    Err(fault) => {
                        proof {
                            b0.lemma_trans(&b2, self);
                        }
                        return Err(fault);
                    },
                    Ok(value) => value,
                };
                let ghost b3 = *self;
                proof {
                    b0.lemma_trans(&b2, &b3);
                    lemma_matches_grow(b2.ground(), b3.ground(), nodes, nodes, c, parts[0]);
                    lemma_matches_grow(b2.ground(), b3.ground(), nodes, nodes, t, parts[1]);
                }
                proof {
                    lemma_open_cost_member(self.formula_cache@, nodes, i, nodes.len());
                    lemma_cost_covers(parts.len());
                }
                let result = self.choose_value(c, t, e, Ghost(nodes));
                proof {
                    b0.lemma_trans(&b3, self);
                    let g = self.ground();
                    assert forall|model: Model, m: Interp, a: Assignment| #[trigger]
                        g.good(model, m, a) implies (if value_true(a, c) {
                        value_true(a, t)
                    } else {
                        value_true(a, e)
                    }) == node_true(nodes, terms, m, a, i) by {
                        b3.ground().lemma_good_smaller(g, model, m, a);
                    }
                }
                result
            },
        }
    }

    /// Encodes a choice between two values.
    fn choose_value(
        &mut self,
        c: BoolValue,
        t: BoolValue,
        e: BoolValue,
        Ghost(nodes): Ghost<Seq<NodeView>>,
    ) -> (result: Result<BoolValue, Fault>)
        requires
            old(self).wf(nodes),
            value_ok(c, old(self).ground().vars),
            value_ok(t, old(self).ground().vars),
            value_ok(e, old(self).ground().vars),
        ensures
            final(self).formula_cache == old(self).formula_cache,
            final(self).solid() <= old(self).solid() + 3,
            final(self).wf(nodes),
            old(self).grows_to(final(self)),
            final(self).bools == old(self).bools,
            final(self).funs == old(self).funs,
            final(self).ground().terms == old(self).ground().terms,
            result matches Err(fault) ==> fault is Full && final(self).full(),
            result matches Ok(value) ==> value_ok(value, final(self).ground().vars) && forall|
                model: Model,
                m: Interp,
                a: Assignment,
            | #[trigger]
                final(self).ground().good(model, m, a) ==> value_true(a, value) == if value_true(
                    a,
                    c,
                ) {
                    value_true(a, t)
                } else {
                    value_true(a, e)
                },
    {
        let ghost b0 = *self;
        let left = match self.and_two(c, t, Ghost(nodes)) {
            Err(fault) => return Err(fault),
            Ok(value) => value,
        };
        let ghost b1 = *self;
        let not_c = c.not();
        proof {
            assert(value_ok(not_c, b1.ground().vars));
        }
        let right = match self.and_two(not_c, e, Ghost(nodes)) {
            Err(fault) => {
                proof {
                    b0.lemma_trans(&b1, self);
                }
                return Err(fault);
            },
            Ok(value) => value,
        };
        let ghost b2 = *self;
        let result = self.or_two(left, right, Ghost(nodes));
        proof {
            b0.lemma_trans(&b1, &b2);
            b0.lemma_trans(&b2, self);
            assert forall|model: Model, m: Interp, a: Assignment| #[trigger] self.ground().good(
                model,
                m,
                a,
            ) implies (value_true(a, left) || value_true(a, right)) == if value_true(a, c) {
                value_true(a, t)
            } else {
                value_true(a, e)
            } by {
                b2.ground().lemma_good_smaller(self.ground(), model, m, a);
                b1.ground().lemma_good_smaller(b2.ground(), model, m, a);
                assert(value_true(a, not_c) == !value_true(a, c));
            }
        }
        result
    }
}

proof fn lemma_matching_ok(
    ground: Ground,
    nodes: Seq<NodeView>,
    values: Seq<BoolValue>,
    ids: Seq<int>,
)
    requires
        values_match(ground, nodes, values, ids),
    ensures
        values_ok(values, ground.vars),
{
    assert forall|k: int| 0 <= k < values.len() implies value_ok(#[trigger] values[k], ground.vars) by {
        assert(value_matches(ground, nodes, values[k], ids[k]));
    }
}

proof fn lemma_chain_same(
    nodes: Seq<NodeView>,
    terms: Seq<TermView>,
    m: Interp,
    a: Assignment,
    i: int,
    values: Seq<BoolValue>,
)
    requires
        0 <= i < nodes.len(),
        nodes[i].kind == NodeKind::BoolEq,
        values.len() == nodes[i].parts.len(),
        forall|k: int| 0 <= k < values.len() ==> 0 <= #[trigger] nodes[i].parts[k] < i,
        forall|k: int|
            0 <= k < values.len() ==> value_true(a, #[trigger] values[k]) == node_true(
                nodes,
                terms,
                m,
                a,
                nodes[i].parts[k],
            ),
    ensures
        (forall|k: int|
            0 <= k && k + 1 < values.len() ==> value_true(a, #[trigger] values[k]) == value_true(
                a,
                values[k + 1],
            )) == node_true(nodes, terms, m, a, i),
{
    let parts = nodes[i].parts;
    if node_true(nodes, terms, m, a, i) {
        assert forall|k: int| 0 <= k && k + 1 < values.len() implies value_true(
            a,
            #[trigger] values[k],
        ) == value_true(a, values[k + 1]) by {
            assert(node_true(nodes, terms, m, a, parts[k]) == node_true(
                nodes,
                terms,
                m,
                a,
                parts[k + 1],
            ));
        }
    }
    if forall|k: int|
        0 <= k && k + 1 < values.len() ==> value_true(a, #[trigger] values[k]) == value_true(
            a,
            values[k + 1],
        ) {
        assert forall|k: int| 0 <= k && k + 1 < parts.len() implies 0 <= (#[trigger] parts[k]) < i
            && 0 <= parts[k + 1] < i && node_true(nodes, terms, m, a, parts[k]) == node_true(
            nodes,
            terms,
            m,
            a,
            parts[k + 1],
        ) by {
            assert(value_true(a, values[k]) == value_true(a, values[k + 1]));
        }
    }
}

} // verus!
