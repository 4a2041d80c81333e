//! Names, introduced constants, guarded assertions and checks of the backend.

use crate::euf::table::{table_get, table_insert};
use crate::batch::{stock, Batch};
use crate::effort::metered;
use crate::euf_core::{lemma_term_id_range, CheckBudget, FunId, TermId};
use crate::lower::backend::{
    always, entries_hold, entry_holds, value_claims, value_ok, value_true, BoolValue, Entry, Fault,
    IncrementalBackend,
};
use crate::lower::denote::{either, Claim, Model, Quantity};
use crate::lower::encode::guard_key;
use crate::lower::frames::{ActivationLiteral, Frame};
use crate::lower::ground::{Ground, Switches};
use crate::lower::nodes::{term_ids, NodeView};
use crate::lower::search::{
    keys_match, search_bound, step_bound, SatResult, TheoryKey, TheoryRelation,
};
use crate::sat::{
    clause_true, clauses_true, lit_true, lits_below, lits_true, tautology, Assignment, Lit, Var,
};
use crate::semantics::{atom_holds, lemma_value_unfold, value, values, Interp, TermView};
use vstd::prelude::*;

verus! {

impl IncrementalBackend {
    /// Introduces the variable of one Boolean symbol.
    pub fn fresh_symbol(&mut self, Ghost(name): Ghost<Seq<char>>, Ghost(nodes): Ghost<Seq<NodeView>>) -> (
        result: Result<Var, Fault>)
        requires
            old(self).wf(nodes),
            !old(self).bools@.contains_key(name),
        ensures
            final(self).formula_cache == old(self).formula_cache,
            final(self).solid() <= old(self).solid() + 1,
            final(self).wf(nodes),
            old(self).grows_to(final(self)),
            final(self).funs == old(self).funs,
            result matches Err(fault) ==> fault is Full && final(self).full() && final(self).bools
                == old(self).bools,
            result matches Ok(var) ==> {
                &&& final(self).bools@ == old(self).bools@.insert(name, var)
                &&& var.0 < final(self).ground().vars
            },
    {
        let ghost b0 = *self;
        let ghost g0 = self.ground();
        proof {
            self.lemma_refl();
        }
        let var = match self.sat.alloc_bool_var() {
            None => {
                return Err(Fault::Full("boolean variable overflow".to_owned()));
            },
            Some(var) => var,
        };
        self.bools = Ghost(b0.bools@.insert(name, var));
        proof {
            let g1 = self.ground();
            self.sat.lemma_wf();
            lemma_ok_var(g0, g1);
            assert(g1.terms.take(g0.terms.len() as int) =~= g0.terms);
            assert(g1.definitions.take(g0.definitions.len() as int) =~= g0.definitions);
            assert(g0.extends_to(g1));
            let choice = |model: Model, s: Switches, m: Interp, a: Assignment| (model.bools)(name);
            assert forall|model: Model, s: Switches, m: Interp, a: Assignment|
                g0.complete(model, s, m, a) && a(g0.vars as int) == #[trigger] choice(
                    model,
                    s,
                    m,
                    a,
                ) implies g1.complete(model, s, m, a) by {
                assert forall|n: Seq<char>| #[trigger] g1.bools.contains_key(n) implies (
                model.bools)(n) == a(g1.bools[n].0 as int) by {
                    if n != name {
                        assert(g0.bools.contains_key(n));
                    }
                }
            }
            g0.lemma_realizable_var(g1, choice);
            b0.lemma_wf_grow(self, nodes);
        }
        Ok(var)
    }

    /// Introduces the function symbol of one name.
    pub fn fresh_function(
        &mut self,
        Ghost(name): Ghost<Seq<char>>,
        Ghost(nodes): Ghost<Seq<NodeView>>,
    ) -> (result: Result<FunId, Fault>)
        requires
            old(self).wf(nodes),
            !old(self).funs@.contains_key(name),
        ensures
            final(self).formula_cache == old(self).formula_cache,
            final(self).solid() <= old(self).solid() + 1,
            final(self).wf(nodes),
            old(self).grows_to(final(self)),
            final(self).bools == old(self).bools,
            result matches Err(fault) ==> fault is Full && final(self).full() && final(self).funs
                == old(self).funs,
            result matches Ok(fun) ==> final(self).funs@ == old(self).funs@.insert(name, fun),
    {
        let ghost b0 = *self;
        let ghost g0 = self.ground();
        proof {
            self.lemma_refl();
        }
        if self.euf.num_funs() == u32::MAX {
            return Err(Fault::Full("function symbol overflow".to_owned()));
        }
        let fun = self.euf.alloc_fun();
        self.funs = Ghost(b0.funs@.insert(name, fun));
        proof {
            let g1 = self.ground();
            assert(g1.terms =~= g0.terms);
            lemma_ok_fun(g0, g1);
            assert(g1.terms.take(g0.terms.len() as int) =~= g0.terms);
            assert(g1.definitions.take(g0.definitions.len() as int) =~= g0.definitions);
            assert(g0.extends_to(g1));
            let function = |model: Model| |args: Seq<int>| (model.funs)(name, args);
            assert forall|model: Model, s: Switches, m: Interp, a: Assignment|
                #[trigger] g0.complete(model, s, m, a) && (forall|args: Seq<int>| #[trigger]
                    m(g0.fun_count as int, args) == function(model)(args)) implies g1.complete(
                model,
                s,
                m,
                a,
            ) by {
                assert forall|n: Seq<char>, args: Seq<int>|
                    #![trigger g1.funs.contains_key(n), (model.funs)(n, args)]
                    g1.funs.contains_key(n) implies (model.funs)(n, args) == m(
                    g1.funs[n].id(),
                    args,
                ) by {
                    if n != name {
                        assert(g0.funs.contains_key(n));
                    } else {
                        assert(m(g0.fun_count as int, args) == function(model)(args));
                    }
                }
            }
            g0.lemma_realizable_fun(g1, function);
            b0.lemma_wf_grow(self, nodes);
        }
        Ok(fun)
    }

    /// Adds one application to the term table.
    pub fn add_term(&mut self, fun: FunId, args: Vec<TermId>, Ghost(nodes): Ghost<Seq<NodeView>>) -> (
        result: Result<TermId, Fault>)
        requires
            old(self).wf(nodes),
            0 <= fun.id() < old(self).ground().fun_count,
            forall|k: int|
                0 <= k < args@.len() ==> (#[trigger] args@[k]).id() < old(self).ground().terms.len(),
        ensures
            final(self).formula_cache == old(self).formula_cache,
            final(self).solid() <= old(self).solid() + 1,
            final(self).wf(nodes),
            old(self).grows_to(final(self)),
            final(self).bools == old(self).bools,
            final(self).funs == old(self).funs,
            final(self).proxies == old(self).proxies,
            result matches Err(fault) ==> fault is Full && final(self).full(),
            result matches Ok(t) ==> {
                &&& t.id() < final(self).ground().terms.len()
                &&& final(self).ground().terms[t.id()] == (TermView {
                    fun: fun.id(),
                    args: term_ids(args@),
                })
            },
    {
        let ghost b0 = *self;
        let ghost g0 = self.ground();
        proof {
            self.lemma_refl();
            self.euf.lemma_wf();
        }
        if self.euf.terms().len() >= 0xFFFF_FFFF {
            return Err(Fault::Full("term overflow".to_owned()));
        }
        let ghost list = args@;
        let t = self.euf.intern_term(fun, args);
        proof {
            let g1 = self.ground();
            let table = self.euf.table();
            assert(table.drop_last() == b0.euf.table());
            assert forall|i: int| 0 <= i < g0.terms.len() implies g1.terms[i] == g0.terms[i] by {
                assert(table.drop_last()[i] == table[i]);
            }
            assert(g1.terms[g0.terms.len() as int] == table.last().app());
            assert(table.last().app().args =~= term_ids(list));
            self.euf.lemma_wf();
            assert(keys_kept(g0, g1));
            assert(g1.ok()) by {
                assert forall|v: int|
                    0 <= v < g1.keys.len() && (#[trigger] g1.keys[v]) is Some implies (
                g1.keys[v]->0).in_range(g1.terms) by {
                    assert(g0.keys[v] is Some);
                    assert((g0.keys[v]->0).in_range(g0.terms));
                }
            }
            assert(g1.terms.take(g0.terms.len() as int) =~= g0.terms);
            assert(g1.definitions.take(g0.definitions.len() as int) =~= g0.definitions);
            assert(g0.extends_to(g1));
            assert forall|model: Model, s: Switches, m: Interp, a: Assignment| #[trigger]
                g0.complete(model, s, m, a) implies g1.complete(model, s, m, a) by {
                assert forall|v: int|
                    0 <= v < g1.keys.len() && (#[trigger] g1.keys[v]) is Some implies a(v)
                    == atom_holds(g1.terms, m, (g1.keys[v]->0).atom()) by {
                    assert(g0.keys[v] is Some);
                    let key = g0.keys[v]->0;
                    assert(key.in_range(g0.terms));
                    lemma_term_id_range(key.lhs);
                    lemma_term_id_range(key.rhs);
                    g0.lemma_value_same(g1, m, key.lhs.id());
                    g0.lemma_value_same(g1, m, key.rhs.id());
                }
            }
            g0.lemma_realizable_same(g1);
            b0.lemma_wf_grow(self, nodes);
        }
        Ok(t)
    }

    /// Introduces one constant that is to have the value `q`.
    fn add_proxy(&mut self, Ghost(q): Ghost<Quantity>, Ghost(nodes): Ghost<Seq<NodeView>>) -> (result:
        Result<TermId, Fault>)
        requires
            old(self).wf(nodes),
        ensures
            final(self).formula_cache == old(self).formula_cache,
            final(self).solid() <= old(self).solid() + 2,
            final(self).wf(nodes),
            old(self).grows_to(final(self)),
            final(self).bools == old(self).bools,
            final(self).funs == old(self).funs,
            result matches Err(fault) ==> fault is Full && final(self).full(),
            result matches Ok(t) ==> is_proxy(final(self).ground(), t, q),
    {
        let ghost b0 = *self;
        let ghost g0 = self.ground();
        proof {
            self.lemma_refl();
        }
        if self.euf.num_funs() == u32::MAX {
            return Err(Fault::Full("function symbol overflow".to_owned()));
        }
        let fun = self.euf.alloc_fun();
        self.proxies = Ghost(b0.proxies@.insert(fun.id(), q));
        let ghost b1 = *self;
        proof {
            let g1 = self.ground();
            assert(g1.terms =~= g0.terms);
            assert(g1.ok()) by {
                assert forall|n: Seq<char>| #[trigger] g1.funs.contains_key(n) implies 0
                    <= g1.funs[n].id() < g1.fun_count by {
                    assert(g0.funs.contains_key(n));
                }
                assert forall|f: int| #[trigger] g1.proxies.contains_key(f) implies 0 <= f
                    < g1.fun_count by {
                    if f != fun.id() {
                        assert(g0.proxies.contains_key(f));
                    }
                }
            }
            assert(g1.terms.take(g0.terms.len() as int) =~= g0.terms);
            assert(g1.definitions.take(g0.definitions.len() as int) =~= g0.definitions);
            assert(g0.extends_to(g1)) by {
                assert forall|f: int| #[trigger] g0.proxies.contains_key(
                    f,
                ) implies g1.proxies.contains_key(f) && g1.proxies[f] == g0.proxies[f] by {}
            }
            let function = |model: Model| |args: Seq<int>| q(model);
            assert forall|model: Model, s: Switches, m: Interp, a: Assignment|
                #[trigger] g0.complete(model, s, m, a) && (forall|args: Seq<int>| #[trigger]
                    m(g0.fun_count as int, args) == function(model)(args)) implies g1.complete(
                model,
                s,
                m,
                a,
            ) by {
                assert forall|f: int, args: Seq<int>|
                    #![trigger g1.proxies.contains_key(f), m(f, args)]
                    g1.proxies.contains_key(f) implies m(f, args) == (g1.proxies[f])(model) by {
                    if f != fun.id() {
                        assert(g0.proxies.contains_key(f));
                    } else {
                        assert(m(g0.fun_count as int, args) == function(model)(args));
                    }
                }
            }
            g0.lemma_realizable_fun(g1, function);
            b0.lemma_wf_grow(self, nodes);
        }
        let result = self.add_term(fun, Vec::new(), Ghost(nodes));
        proof {
            b0.lemma_trans(&b1, self);
            if let Ok(t) = result {
                let g = self.ground();
                assert(g.proxies.contains_key(fun.id()));
                assert(g.terms[t.id()].args.len() == 0);
            }
        }
        result
    }

    /// Introduces one constant that equals `then_branch` where `cond` is true and `else_branch`
    /// elsewhere.
    pub fn choice_term(
        &mut self,
        cond: BoolValue,
        then_branch: TermId,
        else_branch: TermId,
        Ghost(c): Ghost<Claim>,
        Ghost(u): Ghost<Quantity>,
        Ghost(v): Ghost<Quantity>,
        Ghost(nodes): Ghost<Seq<NodeView>>,
    ) -> (result: Result<TermId, Fault>)
        requires
            old(self).wf(nodes),
            value_claims(old(self).ground(), cond, c),
            old(self).ground().term_denotes(then_branch.id(), u),
            old(self).ground().term_denotes(else_branch.id(), v),
        ensures
            final(self).formula_cache == old(self).formula_cache,
            final(self).solid() <= old(self).solid() + 8,
            final(self).wf(nodes),
            old(self).grows_to(final(self)),
            final(self).bools == old(self).bools,
            final(self).funs == old(self).funs,
            result matches Err(fault) ==> fault is Full && final(self).full(),
            result matches Ok(t) ==> final(self).ground().term_denotes(t.id(), either(c, u, v)),
    {
        let ghost b0 = *self;
        let ghost q = either(c, u, v);
        let proxy = match self.add_proxy(Ghost(q), Ghost(nodes)) {
            Err(fault) => return Err(fault),
            Ok(t) => t,
        };
        let ghost b1 = *self;
        proof {
            lemma_term_id_range(proxy);
            lemma_term_id_range(then_branch);
            lemma_term_id_range(else_branch);
        }
        let then_equal = match self.theory_atom(
            TheoryKey::new(TheoryRelation::Eq, proxy, then_branch),
            Ghost(nodes),
        ) {
            Err(fault) => {
                proof {
                    b0.lemma_trans(&b1, self);
                }
                return Err(fault);
            },
            Ok(value) => value,
        };
        let ghost b2 = *self;
        let not_cond = cond.not();
        proof {
            b0.lemma_trans(&b1, &b2);
            assert(value_ok(not_cond, b2.ground().vars));
        }
        let then_guard = match self.or_two(not_cond, then_equal, Ghost(nodes)) {
            Err(fault) => {
                proof {
                    b0.lemma_trans(&b2, self);
                }
                return Err(fault);
            },
            Ok(value) => value,
        };
        let ghost b3 = *self;
        proof {
            b0.lemma_trans(&b2, &b3);
        }
        let else_equal = match self.theory_atom(
            TheoryKey::new(TheoryRelation::Eq, proxy, else_branch),
            Ghost(nodes),
        ) {
            Err(fault) => {
                proof {
                    b0.lemma_trans(&b3, self);
                }
                return Err(fault);
            },
            Ok(value) => value,
        };
        let ghost b4 = *self;
        proof {
            b0.lemma_trans(&b3, &b4);
        }
        let else_guard = match self.or_two(cond, else_equal, Ghost(nodes)) {
            Err(fault) => {
                proof {
                    b0.lemma_trans(&b4, self);
                }
                return Err(fault);
            },
            Ok(value) => value,
        };
        let ghost b5 = *self;
        let ghost g5 = self.ground();
        let ghost terms = g5.terms;
        proof {
            b0.lemma_trans(&b4, &b5);
            b1.lemma_trans(&b2, &b3);
            b1.lemma_trans(&b3, &b4);
            b1.lemma_trans(&b4, &b5);
            b0.ground().lemma_term_grow(g5, then_branch.id(), u);
            b0.ground().lemma_term_grow(g5, else_branch.id(), v);
            assert(g5.proxies.contains_key(terms[proxy.id()].fun)) by {
                assert(b1.ground().proxies.contains_key(terms[proxy.id()].fun));
            }
            assert forall|model: Model, m: Interp, a: Assignment| #[trigger] g5.good(
                model,
                m,
                a,
            ) implies {
                &&& value_true(a, cond) == c(model)
                &&& value_true(a, then_guard) == (!c(model) || value(terms, m, proxy.id()) == u(
                    model,
                ))
                &&& value_true(a, else_guard) == (c(model) || value(terms, m, proxy.id()) == v(
                    model,
                ))
            } by {
                b4.ground().lemma_good_smaller(g5, model, m, a);
                b3.ground().lemma_good_smaller(b4.ground(), model, m, a);
                b2.ground().lemma_good_smaller(b3.ground(), model, m, a);
                b0.ground().lemma_good_smaller(g5, model, m, a);
                assert(value_true(a, not_cond) == !value_true(a, cond));
                assert(value(terms, m, then_branch.id()) == u(model));
                assert(value(terms, m, else_branch.id()) == v(model));
            }
            assert forall|model: Model, m: Interp, a: Assignment| #[trigger] g5.pinned(
                model,
                m,
                a,
            ) implies value_true(a, then_guard) && value_true(a, else_guard) by {
                assert(g5.good(model, m, a));
                lemma_value_unfold(terms, m, proxy.id());
                let f = terms[proxy.id()].fun;
                assert(g5.proxies[f] == q);
                assert(m(f, values(terms, m, terms[proxy.id()].args)) == q(model));
            }
        }
        self.add_definition(then_guard, Ghost(nodes));
        let ghost b6 = *self;
        let ghost g6 = self.ground();
        proof {
            b0.lemma_trans(&b5, &b6);
            assert forall|model: Model, m: Interp, a: Assignment| #[trigger] g6.pinned(
                model,
                m,
                a,
            ) implies value_true(a, else_guard) by {
                g5.lemma_good_smaller(g6, model, m, a);
                assert(g5.pinned(model, m, a));
            }
        }
        self.add_definition(else_guard, Ghost(nodes));
        proof {
            b0.lemma_trans(&b6, self);
            b5.lemma_trans(&b6, self);
            let g = self.ground();
            assert forall|model: Model, m: Interp, a: Assignment| #[trigger] g.good(
                model,
                m,
                a,
            ) implies value(g.terms, m, proxy.id()) == q(model) by {
                g6.lemma_good_smaller(g, model, m, a);
                g5.lemma_good_smaller(g, model, m, a);
                assert(value_true(a, then_guard) && value_true(a, else_guard));
            }
        }
        Ok(proxy)
    }

    /// Returns the variable enabling one frame's guarded assertions, introducing it where it is new.
    fn activation_var(
        &mut self,
        activation: ActivationLiteral,
        Ghost(nodes): Ghost<Seq<NodeView>>,
    ) -> (result: Result<Var, Fault>)
        requires
            old(self).wf(nodes),
        ensures
            final(self).formula_cache == old(self).formula_cache,
            final(self).solid() <= old(self).solid() + 1,
            final(self).wf(nodes),
            old(self).grows_to(final(self)),
            final(self).bools == old(self).bools,
            final(self).funs == old(self).funs,
            result matches Err(fault) ==> fault is Full && final(self).full(),
            result matches Ok(var) ==> {
                &&& final(self).ground().guards.contains_key(guard_key(activation.0))
                &&& final(self).ground().guards[guard_key(activation.0)] == var.0
            },
    {
        let ghost b0 = *self;
        let ghost g0 = self.ground();
        let ghost key = guard_key(activation.0);
        proof {
            self.lemma_refl();
        }
        let mut list: Vec<u32> = Vec::new();
        list.push(activation.0);
        proof {
            assert(list@ =~= key);
        }
        if let Some(v) = table_get(&self.activation_vars, &list) {
            return Ok(Var(v));
        }
        let var = match self.sat.alloc_bool_var() {
            None => {
                return Err(Fault::Full("boolean variable overflow".to_owned()));
            },
            Some(var) => var,
        };
        table_insert(&mut self.activation_vars, list, var.0);
        proof {
            let g1 = self.ground();
            self.sat.lemma_wf();
            lemma_ok_var(g0, g1);
            assert(g1.terms.take(g0.terms.len() as int) =~= g0.terms);
            assert(g1.definitions.take(g0.definitions.len() as int) =~= g0.definitions);
            assert(g0.extends_to(g1));
            let choice = |model: Model, s: Switches, m: Interp, a: Assignment| s(key);
            assert forall|model: Model, s: Switches, m: Interp, a: Assignment|
                g0.complete(model, s, m, a) && a(g0.vars as int) == #[trigger] choice(
                    model,
                    s,
                    m,
                    a,
                ) implies g1.complete(model, s, m, a) by {
                assert forall|k: Seq<u32>| #[trigger] g1.guards.contains_key(k) implies a(
                    g1.guards[k] as int,
                ) == s(k) by {
                    if k != key {
                        assert(g0.guards.contains_key(k));
                    }
                }
            }
            g0.lemma_realizable_var(g1, choice);
            b0.lemma_wf_grow(self, nodes);
        }
        Ok(var)
    }

    /// Encodes a top-level assertion, optionally guarded by one frame activation literal.
    pub fn assert_value(
        &mut self,
        value: BoolValue,
        activation: Option<ActivationLiteral>,
        Ghost(p): Ghost<Claim>,
        Ghost(nodes): Ghost<Seq<NodeView>>,
    ) -> (result: Result<(), Fault>)
        requires
            old(self).wf(nodes),
            value_claims(old(self).ground(), value, p),
        ensures
            final(self).formula_cache == old(self).formula_cache,
            final(self).solid() <= old(self).solid() + 1,
            final(self).wf(nodes),
            old(self).ground().extends_to(final(self).ground()),
            final(self).bools == old(self).bools,
            final(self).funs == old(self).funs,
            result matches Err(fault) ==> fault is Full && final(self).full()
                && final(self).entries == old(self).entries,
            result is Ok ==> final(self).entries@ == old(self).entries@.push(
                Entry {
                    guard: match activation {
                        None => None,
                        Some(act) => Some(guard_key(act.0)),
                    },
                    claim: p,
                },
            ),
    {
        let ghost b0 = *self;
        let ghost guard = match activation {
            None => None,
            Some(act) => Some(guard_key(act.0)),
        };
        let ghost entry = Entry { guard, claim: p };
        proof {
            self.lemma_refl();
        }
        let mut clause: Vec<Lit> = Vec::new();
        match value {
            BoolValue::Const(true) => {
                self.entries = Ghost(b0.entries@.push(entry));
                proof {
                    assert forall|model: Model, m: Interp, a: Assignment| #[trigger]
                        b0.ground().good(model, m, a) implies p(model) by {
                        assert(value_true(a, value) == p(model));
                    }
                    b0.lemma_asserted(self, entry, nodes, Seq::empty(), true);
                }
                return Ok(());
            },
            _ => {},
        }
        if let Some(act) = activation {
            let var = match self.activation_var(act, Ghost(nodes)) {
                Err(fault) => return Err(fault),
                Ok(var) => var,
            };
            clause.push(Lit::new(var, true));
        }
        let ghost b1 = *self;
        if let BoolValue::Lit(lit) = value {
            clause.push(lit);
        }
        proof {
            b0.ground().lemma_refl();
            assert(b0.ground().extends_to(b1.ground()));
            assert forall|model: Model, m: Interp, a: Assignment| #[trigger] b1.ground().good(
                model,
                m,
                a,
            ) implies value_true(a, value) == p(model) by {
                b0.ground().lemma_good_smaller(b1.ground(), model, m, a);
            }
            assert forall|k: int| 0 <= k < clause@.len() implies (#[trigger] clause@[k]).var.0
                < b1.ground().vars by {}
        }
        self.sat.add_clause(clause.as_slice());
        self.entries = Ghost(b1.entries@.push(entry));
        proof {
            let c = clause@;
            assert forall|model: Model, m: Interp, a: Assignment| #[trigger] b1.ground().good(
                model,
                m,
                a,
            ) implies clause_true(a, c) == entry_holds(b1.ground(), entry, model, a) by {
                assert(value_true(a, value) == p(model));
                if clause_true(a, c) {
                    let k = choose|k: int| 0 <= k < c.len() && lit_true(a, #[trigger] c[k]);
                }
                if entry_holds(b1.ground(), entry, model, a) {
                    if let Some(act) = activation {
                        let g = b1.ground().guards[guard_key(act.0)] as int;
                        if !a(g) {
                            assert(lit_true(a, c[0]));
                        } else if let BoolValue::Lit(lit) = value {
                            assert(c[1] == lit);
                            assert(lit_true(a, c[1]));
                        }
                    } else if let BoolValue::Lit(lit) = value {
                        assert(c[0] == lit);
                        assert(lit_true(a, c[0]));
                    }
                }
            }
            b1.lemma_asserted(self, entry, nodes, c, false);
        }
        Ok(())
    }

    /// The backend stays consistent when an entry and its clause are added.
    proof fn lemma_asserted(
        &self,
        new: &IncrementalBackend,
        entry: Entry,
        nodes: Seq<NodeView>,
        clause: Seq<Lit>,
        constant: bool,
    )
        requires
            self.wf(nodes),
            new.sat.wf(),
            *new == (IncrementalBackend { sat: new.sat, entries: new.entries, ..*self }),
            new.entries@ == self.entries@.push(entry),
            new.sat.var_count() == self.sat.var_count(),
            new.sat.definitions() == self.sat.definitions(),
            new.sat.relations() == self.sat.relations(),
            constant ==> new.sat.assertions() == self.sat.assertions() && always(
                self.ground(),
                entry.claim,
            ),
            !constant ==> new.sat.assertions() == (if tautology(clause) {
                self.sat.assertions()
            } else {
                self.sat.assertions().push(clause)
            }) && (entry.guard matches Some(k) ==> self.ground().guards.contains_key(k)) && (forall|
                model: Model,
                m: Interp,
                a: Assignment,
            | #[trigger]
                self.ground().good(model, m, a) ==> clause_true(a, clause) == entry_holds(
                    self.ground(),
                    entry,
                    model,
                    a,
                )),
        ensures
            new.wf(nodes),
    {
        let g = self.ground();
        assert(new.ground() == g);
        let more = new.entries@;
        let n = self.entries@.len() as int;
        assert(new.cache_ok(nodes)) by {
            assert(self.cache_ok(nodes));
        }
        assert(new.keys_ok()) by {
            assert(self.keys_ok());
        }
        assert forall|model: Model, m: Interp, a: Assignment| #[trigger] g.good(
            model,
            m,
            a,
        ) implies (clauses_true(a, new.sat.assertions()) <==> entries_hold(g, more, model, a)) by {
            let old_clauses = self.sat.assertions();
            let all = new.sat.assertions();
            assert(more[n] == entry);
            assert(entries_hold(g, more, model, a) == (entries_hold(g, self.entries@, model, a)
                && entry_holds(g, entry, model, a))) by {
                if entries_hold(g, more, model, a) {
                    assert(entry_holds(g, more[n], model, a));
                    assert forall|i: int| 0 <= i < n implies entry_holds(
                        g,
                        #[trigger] self.entries@[i],
                        model,
                        a,
                    ) by {
                        assert(entry_holds(g, more[i], model, a));
                    }
                }
                if entries_hold(g, self.entries@, model, a) && entry_holds(g, entry, model, a) {
                    assert forall|i: int| 0 <= i < more.len() implies entry_holds(
                        g,
                        #[trigger] more[i],
                        model,
                        a,
                    ) by {
                        if i < n {
                            assert(entry_holds(g, self.entries@[i], model, a));
                        }
                    }
                }
            }
            if constant {
                assert((entry.claim)(model));
            } else if tautology(clause) {
                let (i, j) = choose|i: int, j: int|
                    0 <= i < clause.len() && 0 <= j < clause.len() && #[trigger] clause[i] == (
                    #[trigger] clause[j]).spec_negate();
                if lit_true(a, clause[j]) {
                } else {
                    assert(lit_true(a, clause[i]));
                }
                assert(clause_true(a, clause));
            } else {
                let k = old_clauses.len() as int;
                assert(all[k] == clause);
                if clauses_true(a, all) {
                    assert(clause_true(a, all[k]));
                    assert forall|i: int| 0 <= i < k implies clause_true(
                        a,
                        #[trigger] old_clauses[i],
                    ) by {
                        assert(clause_true(a, all[i]));
                    }
                }
                if clauses_true(a, old_clauses) && clause_true(a, clause) {
                    assert forall|i: int| 0 <= i < all.len() implies clause_true(
                        a,
                        #[trigger] all[i],
                    ) by {
                        if i < k {
                            assert(clause_true(a, old_clauses[i]));
                        }
                    }
                }
            }
        }
        assert forall|i: int| 0 <= i < more.len() implies {
            ||| (#[trigger] more[i]).guard is None
            ||| g.guards.contains_key(more[i].guard->0)
            ||| always(g, more[i].claim)
        } by {
            if i < n {
                assert(more[i] == self.entries@[i]);
            }
        }
    }

    /// The most checkpoints of one search.
    pub open spec fn checkpoint_bound(&self) -> nat {
        search_bound(step_bound(self.ground().terms, self.ground().vars), self.ground().vars)
    }

    /// Solves the currently active frames by taking their activations as assumptions.
    pub fn check_with_budget<B: CheckBudget>(
        &self,
        frames: &Vec<Frame>,
        budget: &mut B,
        batch: &mut Batch,
        Ghost(nodes): Ghost<Seq<NodeView>>,
    ) -> (result: SatResult)
        requires
            old(batch).wf(),
            self.wf(nodes),
        ensures
            final(batch).wf(),
            final(batch).quantum == old(batch).quantum,
            result != SatResult::Unknown,
            result == SatResult::Sat ==> exists|model: Model|
                live_entries_hold(self.entries@, frames@, model),
            result == SatResult::Unsat ==> forall|model: Model|
                !live_entries_hold(self.entries@, frames@, model),
            old(budget).unlimited() ==> result != SatResult::Interrupted && final(budget).unlimited(),
            metered(
                stock(old(budget), *old(batch)),
                stock(final(budget), *final(batch)),
                result != SatResult::Interrupted,
                self.checkpoint_bound(),
            ),
    {
        let ghost g = self.ground();
        let mut assumptions: Vec<Lit> = Vec::new();
        let mut i: usize = 0;
        while i < frames.len()
            invariant
                0 <= i <= frames.len(),
                self.wf(nodes),
                g == self.ground(),
                lits_below(assumptions@, g.vars),
                forall|a: Assignment| #[trigger]
                    lits_true(a, assumptions@) <==> guards_on(g, frames@.take(i as int), a),
            decreases frames.len() - i,
        {
            let frame = frames[i];
            let mut list: Vec<u32> = Vec::new();
            list.push(frame.activation.0);
            proof {
                assert(list@ =~= guard_key(frame.activation.0));
                assert(frames@.take(i as int + 1) =~= frames@.take(i as int).push(frame));
            }
            let ghost before = assumptions@;
            if let Some(v) = table_get(&self.activation_vars, &list) {
                proof {
                    assert(g.guards.contains_key(guard_key(frame.activation.0)));
                    assert(v < g.vars);
                }
                assumptions.push(Lit::new(Var(v), false));
                proof {
                    assert forall|a: Assignment| #[trigger] lits_true(a, assumptions@)
                        <==> guards_on(g, frames@.take(i as int + 1), a) by {
                        crate::qfuf::connectives::lemma_lits_push(
                            a,
                            before,
                            Lit { var: Var(v), negated: false },
                        );
                        lemma_guards_push(g, frames@.take(i as int), frame, a);
                        assert(lits_true(a, before) <==> guards_on(g, frames@.take(i as int), a));
                    }
                }
            } else {
                proof {
                    assert forall|a: Assignment| #[trigger] lits_true(a, assumptions@)
                        <==> guards_on(g, frames@.take(i as int + 1), a) by {
                        lemma_guards_push(g, frames@.take(i as int), frame, a);
                    }
                }
            }
            i += 1;
        }
        proof {
            assert(frames@.take(i as int) =~= frames@);
        }
        let result = self.sat.solve_with_assumptions_and_budget(
            &self.euf,
            assumptions.as_slice(),
            budget,
            batch,
        );
        proof {
            if result == SatResult::Sat {
                let (m, a) = choose|m: Interp, a: Assignment|
                    {
                        &&& #[trigger] keys_match(self.euf.views(), self.sat.relations(), m, a)
                        &&& clauses_true(a, self.sat.definitions())
                        &&& clauses_true(a, self.sat.assertions())
                        &&& lits_true(a, assumptions@)
                    };
                assert(guards_on(g, frames@, a));
                let model = Model {
                    bools: |n: Seq<char>| a(g.bools[n].0 as int),
                    funs: |n: Seq<char>, args: Seq<int>| m(g.funs[n].id(), args),
                };
                assert(g.good(model, m, a));
                assert(entries_hold(g, self.entries@, model, a));
                self.lemma_live(frames@, model, m, a);
            }
            if result == SatResult::Unsat {
                assert forall|model: Model| !live_entries_hold(self.entries@, frames@, model) by {
                    if live_entries_hold(self.entries@, frames@, model) {
                        let switches = |k: Seq<u32>| is_live(frames@, k);
                        assert(g.completable(model, switches));
                        let (m, a) = choose|m: Interp, a: Assignment|
                            g.complete(model, switches, m, a);
                        assert(guards_on(g, frames@, a)) by {
                            assert forall|j: int|
                                0 <= j < frames@.len() && g.guards.contains_key(
                                    guard_key((#[trigger] frames@[j]).activation.0),
                                ) implies a(
                                g.guards[guard_key(frames@[j].activation.0)] as int,
                            ) by {
                                assert(is_live(frames@, guard_key(frames@[j].activation.0)));
                            }
                        }
                        assert(entries_hold(g, self.entries@, model, a)) by {
                            assert forall|j: int| 0 <= j < self.entries@.len() implies entry_holds(
                                g,
                                #[trigger] self.entries@[j],
                                model,
                                a,
                            ) by {
                                let entry = self.entries@[j];
                                if let Some(k) = entry.guard {
                                    if g.guards.contains_key(k) && a(g.guards[k] as int) {
                                        assert(switches(k));
                                        assert(is_live(frames@, k));
                                    }
                                }
                            }
                        }
                        assert(g.good(model, m, a));
                        assert(lits_true(a, assumptions@));
                        assert(keys_match(self.euf.views(), self.sat.relations(), m, a));
                    }
                }
            }
        }
        result
    }

    proof fn lemma_live(&self, frames: Seq<Frame>, model: Model, m: Interp, a: Assignment)
        requires
            self.entries_ok(),
            self.ground().good(model, m, a),
            entries_hold(self.ground(), self.entries@, model, a),
            guards_on(self.ground(), frames, a),
        ensures
            live_entries_hold(self.entries@, frames, model),
    {
        let g = self.ground();
        assert forall|j: int|
            0 <= j < self.entries@.len() && ((#[trigger] self.entries@[j]).guard is None || is_live(
                frames,
                self.entries@[j].guard->0,
            )) implies (self.entries@[j].claim)(model) by {
            let entry = self.entries@[j];
            assert(entry_holds(g, entry, model, a));
            if let Some(k) = entry.guard {
                let i = choose|i: int|
                    0 <= i < frames.len() && guard_key((#[trigger] frames[i]).activation.0) == k;
                if g.guards.contains_key(k) {
                    assert(a(g.guards[guard_key(frames[i].activation.0)] as int));
                }
            }
        }
    }
}

/// The activation is that of an open frame.
pub open spec fn is_live(frames: Seq<Frame>, k: Seq<u32>) -> bool {
    exists|i: int| 0 <= i < frames.len() && guard_key((#[trigger] frames[i]).activation.0) == k
}

/// All claims asserted outside frames or inside open ones hold.
pub open spec fn live_entries_hold(entries: Seq<Entry>, frames: Seq<Frame>, model: Model) -> bool {
    forall|j: int|
        0 <= j < entries.len() && ((#[trigger] entries[j]).guard is None || is_live(
            frames,
            entries[j].guard->0,
        )) ==> (entries[j].claim)(model)
}

/// The guards of all frames are true.
spec fn guards_on(g: Ground, frames: Seq<Frame>, a: Assignment) -> bool {
    forall|i: int|
        0 <= i < frames.len() && g.guards.contains_key(
            guard_key((#[trigger] frames[i]).activation.0),
        ) ==> a(g.guards[guard_key(frames[i].activation.0)] as int)
}

proof fn lemma_guards_push(g: Ground, frames: Seq<Frame>, frame: Frame, a: Assignment)
    ensures
        guards_on(g, frames.push(frame), a) <==> guards_on(g, frames, a) && (g.guards.contains_key(
            guard_key(frame.activation.0),
        ) ==> a(g.guards[guard_key(frame.activation.0)] as int)),
{
    let more = frames.push(frame);
    let n = frames.len() as int;
    assert(more[n] == frame);
    if guards_on(g, more, a) {
        assert forall|i: int|
            0 <= i < frames.len() && g.guards.contains_key(
                guard_key((#[trigger] frames[i]).activation.0),
            ) implies a(g.guards[guard_key(frames[i].activation.0)] as int) by {
            assert(more[i] == frames[i]);
        }
    }
}

/// `t` is an introduced constant that is to have the value `q`.
spec fn is_proxy(g: Ground, t: TermId, q: Quantity) -> bool {
    &&& t.id() < g.terms.len()
    &&& g.terms[t.id()].args.len() == 0
    &&& g.proxies.contains_key(g.terms[t.id()].fun)
    &&& g.proxies[g.terms[t.id()].fun] == q
}

spec fn keys_kept(g0: Ground, g1: Ground) -> bool {
    g1.keys == g0.keys
}

proof fn lemma_ok_var(g0: Ground, g1: Ground)
    requires
        g0.ok(),
        g1.terms == g0.terms,
        g1.fun_count == g0.fun_count,
        g1.keys == g0.keys,
        g1.definitions == g0.definitions,
        g1.vars == g0.vars + 1,
        g1.vars <= u32::MAX,
        g1.funs == g0.funs,
        g1.proxies == g0.proxies,
        forall|n: Seq<char>| #[trigger]
            g1.bools.contains_key(n) ==> g1.bools[n].0 == g0.vars || g0.bools.contains_key(n)
                && g1.bools[n] == g0.bools[n],
        forall|k: Seq<u32>| #[trigger]
            g1.guards.contains_key(k) ==> g1.guards[k] == g0.vars || g0.guards.contains_key(k)
                && g1.guards[k] == g0.guards[k],
    ensures
        g1.ok(),
{
    assert forall|i: int| 0 <= i < g1.definitions.len() implies lits_below(
        #[trigger] g1.definitions[i],
        g1.vars,
    ) by {
        assert(lits_below(g0.definitions[i], g0.vars));
    }
}

proof fn lemma_ok_fun(g0: Ground, g1: Ground)
    requires
        g0.ok(),
        g1.terms == g0.terms,
        g1.fun_count == g0.fun_count + 1,
        g1.keys == g0.keys,
        g1.definitions == g0.definitions,
        g1.vars == g0.vars,
        g1.bools == g0.bools,
        g1.guards == g0.guards,
        g1.proxies == g0.proxies,
        forall|n: Seq<char>| #[trigger]
            g1.funs.contains_key(n) ==> g1.funs[n].id() == g0.fun_count || g0.funs.contains_key(n)
                && g1.funs[n] == g0.funs[n],
    ensures
        g1.ok(),
{
}

} // verus!
