//! Lowering of expressions into persistent formulas and backend terms.

use crate::euf_core::{lemma_fun_id, lemma_term_id_range, FunId, TermId};
use crate::lower::backend::{node_denotes, value_claims, value_true, Fault};
use crate::lower::context::{
    application_key, choice_key, term_entry_ok, LowerContext, LoweredDefinitionValue,
};
use crate::lower::cost::charged;
use crate::lower::denote::{
    all_terms, applied, bind, bind_pairs, claim, claims, cyclic, either, lemma_bind_err,
    lemma_claims_err, lemma_quantities_err, quantities, quantity, terms_only, Bindings, Claim,
    Model, Names, Quantity,
};
use crate::lower::nodes::{
    lemma_formula_id, node_true, push_terms, term_ids, FormulaNode, LowerFormulaId,
};
use crate::lower::work::{
    formula_work, formulas_work, lemma_formulas_work, lemma_heads_apart, lemma_list_cost,
    lemma_short_lists, lemma_terms_work, term_work, terms_work,
};
use crate::qfuf::denote::head_of;
use crate::qfuf::sexpr::{
    copy_sexpr, forms, lemma_forms, lemma_list_form, text_copy, token_texts, Form, SExpr,
};
use crate::sat::{Assignment, Var};
use crate::semantics::{lemma_value_unfold, value, values, Interp, TermView};
use crate::text::{joined3, same_text};
use vstd::prelude::*;

verus! {

broadcast use {lemma_forms, lemma_list_form};

/// Temporary `let` bindings used only while lowering one top-level expression.
pub struct LetEnv {
    /// Bindings in the order in which they were made.
    entries: Vec<(String, SExpr)>,
}

/// What a list of bindings binds: later ones come before earlier ones.
pub open spec fn bound(entries: Seq<(String, SExpr)>) -> Bindings
    decreases entries.len(),
{
    if entries.len() == 0 {
        Map::empty()
    } else {
        bound(entries.drop_last()).insert(entries.last().0@, entries.last().1.form())
    }
}

impl LetEnv {
    /// The list of bindings.
    pub closed spec fn list(&self) -> Seq<(String, SExpr)> {
        self.entries@
    }

    /// What the environment binds.
    pub open spec fn view(&self) -> Bindings {
        bound(self.list())
    }

    /// Creates an empty environment.
    pub fn new() -> (env: Self)
        ensures
            env@ == Map::<Seq<char>, Form>::empty(),
    {
        LetEnv { entries: Vec::new() }
    }

    /// Returns a copy of the expression bound to `name`.
    pub fn get(&self, name: &str) -> (found: Option<SExpr>)
        ensures
            found is Some <==> self@.contains_key(name@),
            found matches Some(expr) ==> expr.form() == self@[name@],
    {
        let mut k: usize = self.entries.len();
        proof {
            assert(self.entries@.take(k as int) =~= self.entries@);
        }
        while k > 0
            invariant
                k <= self.entries@.len(),
                self@.contains_key(name@) == bound(self.entries@.take(k as int)).contains_key(
                    name@,
                ),
                self@.contains_key(name@) ==> self@[name@] == bound(
                    self.entries@.take(k as int),
                )[name@],
            decreases k,
        {
            k -= 1;
            let ghost now = self.entries@.take(k as int + 1);
            proof {
                assert(now.drop_last() =~= self.entries@.take(k as int));
                assert(now.last() == self.entries@[k as int]);
            }
            if same_text(self.entries[k].0.as_str(), name) {
                return Some(copy_sexpr(&self.entries[k].1));
            }
        }
        None
    }

    /// Binds one name.
    fn insert(&mut self, name: String, value: SExpr)
        ensures
            final(self)@ == old(self)@.insert(name@, value.form()),
            final(self).list().len() == old(self).list().len() + 1,
            final(self).list().drop_last() == old(self).list(),
    {
        self.entries.push((name, value));
        proof {
            assert(self.entries@.drop_last() =~= old(self).entries@);
        }
    }

    /// Restores the environment to the state it had before the current binder scope.
    fn rollback(&mut self, len: usize)
        requires
            len <= old(self).list().len(),
        ensures
            final(self).list() == old(self).list().take(len as int),
    {
        self.entries.truncate(len);
    }

    /// Returns the number of bindings.
    fn len(&self) -> (n: usize)
        ensures
            n == self.list().len(),
    {
        self.entries.len()
    }

    /// Applies the bindings of a binding list, in order.
    fn bind_list(&mut self, list: &SExpr) -> (result: Result<(), Fault>)
        ensures
            final(self).list().len() >= old(self).list().len(),
            final(self).list().take(old(self).list().len() as int) == old(self).list(),
            match bind(old(self)@, list.form()) {
                Ok(env) => result is Ok && final(self)@ == env,
                Err(error) => result matches Err(Fault::Text(text)) && text@ == error,
            },
    {
        let ghost env0 = self@;
        let ghost list0 = self.list();
        proof {
            assert(list0.take(list0.len() as int) =~= list0);
        }
        match list {
            SExpr::Atom(_) => Err(Fault::Text("let bindings must be a list".to_owned())),
            SExpr::List(pairs) => {
                let ghost fs = forms(*pairs);
                let mut i: usize = 0;
                while i < pairs.len()
                    invariant
                        0 <= i <= pairs.len(),
                        fs == forms(*pairs),
                        list.form() == Form::List(fs),
                        env0 == old(self)@,
                        list0 == old(self).list(),
                        self.list().len() >= list0.len(),
                        self.list().take(list0.len() as int) == list0,
                        bind_pairs(env0, fs, i as nat) == Ok::<Bindings, Seq<char>>(self@),
                    decreases pairs.len() - i,
                {
                    proof {
                        assert(fs[i as int] == pairs@[i as int].form());
                    }
                    match &pairs[i] {
                        SExpr::Atom(_) => {
                            proof {
                                lemma_bind_err(env0, fs, (i + 1) as nat, fs.len());
                            }
                            return Err(Fault::Text("let binding must be a list".to_owned()));
                        },
                        SExpr::List(pair) => {
                            let ghost ps = forms(*pair);
                            if pair.len() != 2 {
                                proof {
                                    lemma_bind_err(env0, fs, (i + 1) as nat, fs.len());
                                }
                                return Err(
                                    Fault::Text(
                                        "let binding must contain name and value".to_owned(),
                                    ),
                                );
                            }
                            proof {
                                assert(ps[0] == pair@[0].form());
                                assert(ps[1] == pair@[1].form());
                            }
                            match &pair[0] {
                                SExpr::List(_) => {
                                    proof {
                                        lemma_bind_err(env0, fs, (i + 1) as nat, fs.len());
                                    }
                                    return Err(
                                        Fault::Text("let binding name must be an atom".to_owned()),
                                    );
                                },
                                SExpr::Atom(name) => {
                                    let ghost before = self.list();
                                    self.insert(text_copy(name), copy_sexpr(&pair[1]));
                                    proof {
                                        assert(self.list().take(list0.len() as int)
                                            =~= before.take(list0.len() as int)) by {
                                            assert forall|k: int| 0 <= k < list0.len() implies self.list()[k]
                                                == before[k] by {
                                                assert(self.list().drop_last()[k]
                                                    == self.list()[k]);
                                            }
                                        }
                                    }
                                },
                            }
                        },
                    }
                    i += 1;
                }
                Ok(())
            },
        }
    }
}

/// The outcome of lowering an expression in formula position.
pub open spec fn lowered(
    c: &LowerContext,
    new: &LowerContext,
    result: Result<LowerFormulaId, Fault>,
    meaning: Result<Claim, Seq<char>>,
) -> bool {
    &&& new.wf()
    &&& c.grows_to(new)
    &&& match result {
        Ok(id) => meaning is Ok && node_denotes(new.ground(), new.nodes(), id.id(), meaning->Ok_0),
        Err(Fault::Text(text)) => meaning == Err::<Claim, Seq<char>>(text@),
        Err(Fault::Full(_)) => new.full(),
    }
}

/// The optional term denotes the optional quantity.
pub open spec fn maybe_denotes(c: &LowerContext, t: Option<TermId>, u: Option<Quantity>) -> bool {
    match (t, u) {
        (None, None) => true,
        (Some(t), Some(u)) => c.ground().term_denotes(t.id(), u),
        _ => false,
    }
}

/// The outcome of lowering an expression in term position.
pub open spec fn lowered_term(
    c: &LowerContext,
    new: &LowerContext,
    result: Result<Option<TermId>, Fault>,
    meaning: Result<Option<Quantity>, Seq<char>>,
) -> bool {
    &&& new.wf()
    &&& c.grows_to(new)
    &&& match result {
        Ok(t) => meaning is Ok && maybe_denotes(new, t, meaning->Ok_0),
        Err(Fault::Text(text)) => meaning == Err::<Option<Quantity>, Seq<char>>(text@),
        Err(Fault::Full(_)) => new.full(),
    }
}

/// Returns an error with this text.
fn text_fault(text: &str) -> (fault: Fault)
    ensures
        fault matches Fault::Text(message) && message@ == text@,
{
    Fault::Text(text.to_owned())
}

/// Returns whether a text occurs in a list.
fn names_contain(names: &Vec<String>, name: &str) -> (found: bool)
    ensures
        found == token_texts(names@).contains(name@),
{
    let ghost texts = token_texts(names@);
    let mut i: usize = 0;
    while i < names.len()
        invariant
            0 <= i <= names.len(),
            texts == token_texts(names@),
            forall|j: int| 0 <= j < i ==> #[trigger] texts[j] != name@,
        decreases names.len() - i,
    {
        proof {
            assert(texts[i as int] == names@[i as int]@);
        }
        if same_text(names[i].as_str(), name) {
            return true;
        }
        i += 1;
    }
    false
}

/// Returns the terms of a list, if all of its entries are terms.
fn all_some(list: &Vec<Option<TermId>>) -> (terms: Option<Vec<TermId>>)
    ensures
        terms is Some <==> forall|k: int| 0 <= k < list@.len() ==> (#[trigger] list@[k]) is Some,
        terms matches Some(ts) ==> ts@.len() == list@.len() && forall|k: int|
            0 <= k < list@.len() ==> #[trigger] ts@[k] == list@[k]->0,
{
    let mut terms: Vec<TermId> = Vec::new();
    let mut i: usize = 0;
    while i < list.len()
        invariant
            0 <= i <= list.len(),
            terms@.len() == i,
            forall|k: int|
                0 <= k < i ==> (#[trigger] list@[k]) is Some && terms@[k] == list@[k]->0,
        decreases list.len() - i,
    {
        match list[i] {
            None => {
                return None;
            },
            Some(t) => {
                terms.push(t);
            },
        }
        i += 1;
    }
    Some(terms)
}

impl LowerContext {
    /// Reuses or allocates one backend-stable variable for `name`.
    fn bool_symbol(&mut self, name: &String) -> (result: Result<Var, Fault>)
        requires
            old(self).wf(),
        ensures
            final(self).wf(),
            old(self).grows_to(final(self)),
            final(self).nodes() == old(self).nodes(),
            charged(old(self).used(), final(self).used(), result, 1),
            result matches Err(fault) ==> fault is Full && final(self).full(),
            result matches Ok(var) ==> final(self).ground().bools.contains_key(name@)
                && final(self).ground().bools[name@] == var,
    {
        let ghost c0 = *self;
        proof {
            self.lemma_refl();
        }
        if let Some(var) = self.bool_symbols.get(name.as_str()) {
            return Ok(*var);
        }
        let ghost nodes = self.nodes();
        match self.backend.fresh_symbol(Ghost(name@), Ghost(nodes)) {
            Err(fault) => {
                proof {
                    c0.lemma_tables_grow(self);
                    self.lemma_full();
                }
                Err(fault)
            },
            Ok(var) => {
                self.bool_symbols.insert(text_copy(name), var);
                proof {
                    assert(self.bool_symbols@ =~= self.backend.bools@);
                    c0.lemma_tables_grow(self);
                }
                Ok(var)
            },
        }
    }

    /// Reuses or allocates one backend-stable function symbol for `name`.
    fn fun_symbol(&mut self, name: &String) -> (result: Result<FunId, Fault>)
        requires
            old(self).wf(),
        ensures
            final(self).wf(),
            old(self).grows_to(final(self)),
            final(self).nodes() == old(self).nodes(),
            charged(old(self).used(), final(self).used(), result, 1),
            result matches Err(fault) ==> fault is Full && final(self).full(),
            result matches Ok(fun) ==> final(self).ground().funs.contains_key(name@)
                && final(self).ground().funs[name@] == fun,
    {
        let ghost c0 = *self;
        proof {
            self.lemma_refl();
        }
        if let Some(fun) = self.fun_symbols.get(name.as_str()) {
            return Ok(*fun);
        }
        let ghost nodes = self.nodes();
        match self.backend.fresh_function(Ghost(name@), Ghost(nodes)) {
            Err(fault) => {
                proof {
                    c0.lemma_tables_grow(self);
                    self.lemma_full();
                }
                Err(fault)
            },
            Ok(fun) => {
                self.fun_symbols.insert(text_copy(name), fun);
                proof {
                    assert(self.fun_symbols@ =~= self.backend.funs@);
                    c0.lemma_tables_grow(self);
                }
                Ok(fun)
            },
        }
    }

    /// Records the backend term of a new term node.
    fn record_term(&mut self, key: Vec<u32>, t: TermId)
        requires
            old(self).wf(),
            old(self).term_values@.len() < u32::MAX,
            !old(self).term_intern.lists().contains(key@),
            term_entry_ok(old(self).ground(), old(self).nodes(), key@, t.id()),
        ensures
            final(self).wf(),
            old(self).grows_to(final(self)),
            final(self).ground() == old(self).ground(),
            final(self).nodes() == old(self).nodes(),
            final(self).used() == old(self).used() + 1,
    {
        let ghost c0 = *self;
        proof {
            self.lemma_refl();
        }
        let _ = self.term_intern.intern(key);
        self.term_values.push(t);
        proof {
            let lists = self.term_intern.lists();
            assert forall|i: int| 0 <= i < self.term_values@.len() implies term_entry_ok(
                self.ground(),
                self.nodes(),
                lists[i],
                (#[trigger] self.term_values@[i]).id(),
            ) by {
                if i < c0.term_values@.len() {
                    assert(self.term_values@[i] == c0.term_values@[i]);
                    assert(lists[i] == c0.term_intern.lists()[i]);
                }
            }
        }
    }

    /// Deduplicates one application and materializes its backend term once overall.
    fn intern_application(&mut self, fun: FunId, args: Vec<TermId>) -> (result: Result<
        TermId,
        Fault,
    >)
        requires
            old(self).wf(),
            0 <= fun.id() < old(self).ground().fun_count,
            forall|k: int|
                0 <= k < args@.len() ==> (#[trigger] args@[k]).id() < old(self).ground().terms.len(),
        ensures
            final(self).wf(),
            old(self).grows_to(final(self)),
            charged(old(self).used(), final(self).used(), result, 2),
            result matches Err(fault) ==> fault is Full && final(self).full(),
            result matches Ok(t) ==> {
                &&& 0 <= t.id() < final(self).ground().terms.len()
                &&& final(self).ground().terms[t.id()] == (TermView {
                    fun: fun.id(),
                    args: term_ids(args@),
                })
            },
    {
        let ghost c0 = *self;
        let ghost list = args@;
        let ghost ids = term_ids(args@);
        proof {
            self.lemma_refl();
            lemma_fun_id(fun);
            self.backend.euf.lemma_wf();
        }
        let mut key: Vec<u32> = Vec::new();
        key.push(0);
        key.push(fun.index() as u32);
        push_terms(&mut key, &args);
        proof {
            assert(key@ =~= application_key(fun.id(), ids));
            assert forall|k: int| 0 <= k < ids.len() implies 0 <= (#[trigger] ids[k])
                <= u32::MAX by {
                lemma_term_id_range(list[k]);
            }
            assert(key@.skip(2).map_values(|p: u32| p as int) =~= ids);
        }
        if let Some(i) = self.term_intern.find(&key) {
            let t = self.term_values[i as usize];
            proof {
                lemma_term_id_range(t);
                assert(term_entry_ok(
                    self.ground(),
                    self.nodes(),
                    self.term_intern.lists()[i as int],
                    self.term_values@[i as int].id(),
                ));
                assert(self.ground().terms[t.id()] =~= (TermView { fun: fun.id(), args: ids }));
            }
            return Ok(t);
        }
        if self.term_values.len() >= 0xFFFF_FFFF {
            proof {
                self.lemma_full();
            }
            return Err(Fault::Full("term overflow".to_owned()));
        }
        let ghost nodes = self.nodes();
        let t = match self.backend.add_term(fun, args, Ghost(nodes)) {
            Err(fault) => {
                proof {
                    c0.lemma_tables_grow(self);
                    self.lemma_full();
                }
                return Err(fault);
            },
            Ok(t) => t,
        };
        proof {
            c0.lemma_tables_grow(self);
            lemma_term_id_range(t);
        }
        let ghost c1 = *self;
        self.record_term(key, t);
        proof {
            c0.lemma_trans(&c1, self);
        }
        Ok(t)
    }

    /// Deduplicates one conditional term and materializes its guarded constant once overall.
    fn intern_choice(
        &mut self,
        cond: LowerFormulaId,
        then_branch: TermId,
        else_branch: TermId,
        Ghost(c): Ghost<Claim>,
        Ghost(u): Ghost<Quantity>,
        Ghost(v): Ghost<Quantity>,
    ) -> (result: Result<TermId, Fault>)
        requires
            old(self).wf(),
            node_denotes(old(self).ground(), old(self).nodes(), cond.id(), c),
            old(self).ground().term_denotes(then_branch.id(), u),
            old(self).ground().term_denotes(else_branch.id(), v),
        ensures
            final(self).wf(),
            old(self).grows_to(final(self)),
            charged(old(self).used(), final(self).used(), result, 9),
            result matches Err(fault) ==> fault is Full && final(self).full(),
            result matches Ok(t) ==> final(self).ground().term_denotes(t.id(), either(c, u, v)),
    {
        let ghost c0 = *self;
        let ghost nodes = self.nodes();
        let ghost q = either(c, u, v);
        proof {
            self.lemma_refl();
            lemma_formula_id(cond, cond);
            lemma_term_id_range(then_branch);
            lemma_term_id_range(else_branch);
        }
        let mut key: Vec<u32> = Vec::new();
        key.push(1);
        key.push(cond.index() as u32);
        key.push(then_branch.index() as u32);
        key.push(else_branch.index() as u32);
        proof {
            assert(key@ =~= choice_key(cond.id(), then_branch.id(), else_branch.id()));
        }
        if let Some(i) = self.term_intern.find(&key) {
            let t = self.term_values[i as usize];
            proof {
                lemma_term_id_range(t);
                let g = self.ground();
                assert(term_entry_ok(
                    g,
                    nodes,
                    self.term_intern.lists()[i as int],
                    self.term_values@[i as int].id(),
                ));
                assert(key@.len() == 4 && key@[0] == 1);
                assert forall|model: Model, m: Interp, a: Assignment| #[trigger] g.good(
                    model,
                    m,
                    a,
                ) implies value(g.terms, m, t.id()) == q(model) by {
                    assert(node_true(nodes, g.terms, m, a, cond.id()) == c(model));
                }
            }
            return Ok(t);
        }
        if self.term_values.len() >= 0xFFFF_FFFF {
            proof {
                self.lemma_full();
            }
            return Err(Fault::Full("term overflow".to_owned()));
        }
        let guard = match self.backend.formula(&self.arena, cond) {
            Err(fault) => {
                proof {
                    c0.lemma_tables_grow(self);
                }
                return Err(fault);
            },
            Ok(guard) => guard,
        };
        let ghost c1 = *self;
        proof {
            c0.lemma_tables_grow(&c1);
            c0.lemma_denotes(&c1, cond.id(), c);
            c0.ground().lemma_term_grow(c1.ground(), then_branch.id(), u);
            c0.ground().lemma_term_grow(c1.ground(), else_branch.id(), v);
            let g = c1.ground();
            assert(value_claims(g, guard, c)) by {
                assert forall|model: Model, m: Interp, a: Assignment| #[trigger] g.good(
                    model,
                    m,
                    a,
                ) implies value_true(a, guard) == c(model) by {
                    assert(node_true(nodes, g.terms, m, a, cond.id()) == c(model));
                }
            }
        }
        let result = self.backend.choice_term(
            guard,
            then_branch,
            else_branch,
            Ghost(c),
            Ghost(u),
            Ghost(v),
            Ghost(nodes),
        );
        let ghost c2 = *self;
        proof {
            c1.lemma_tables_grow(&c2);
            c0.lemma_trans(&c1, &c2);
        }
        let t = match result {
            Err(fault) => {
                proof {
                    self.lemma_full();
                }
                return Err(fault);
            },
            Ok(t) => t,
        };
        proof {
            lemma_term_id_range(t);
            c1.lemma_denotes(&c2, cond.id(), c);
            c1.ground().lemma_term_grow(c2.ground(), then_branch.id(), u);
            c1.ground().lemma_term_grow(c2.ground(), else_branch.id(), v);
            let g = c2.ground();
            assert(term_entry_ok(g, nodes, key@, t.id())) by {
                assert forall|model: Model, m: Interp, a: Assignment| #[trigger] g.good(
                    model,
                    m,
                    a,
                ) implies value(g.terms, m, t.id()) == if node_true(
                    nodes,
                    g.terms,
                    m,
                    a,
                    key@[1] as int,
                ) {
                    value(g.terms, m, key@[2] as int)
                } else {
                    value(g.terms, m, key@[3] as int)
                } by {
                    assert(node_true(nodes, g.terms, m, a, cond.id()) == c(model));
                    assert(value(g.terms, m, t.id()) == q(model));
                }
            }
        }
        self.record_term(key, t);
        proof {
            c0.lemma_trans(&c2, self);
        }
        Ok(t)
    }

    /// Lowers one application of a function symbol to lowered arguments.
    fn lower_applied(
        &mut self,
        name: &String,
        args: Vec<TermId>,
        Ghost(us): Ghost<Seq<Quantity>>,
    ) -> (result: Result<TermId, Fault>)
        requires
            old(self).wf(),
            old(self).terms_denote(args@, us),
        ensures
            final(self).wf(),
            old(self).grows_to(final(self)),
            charged(old(self).used(), final(self).used(), result, 3),
            result matches Err(fault) ==> fault is Full && final(self).full(),
            result matches Ok(t) ==> final(self).ground().term_denotes(t.id(), applied(name@, us)),
    {
        let ghost c0 = *self;
        let ghost list = args@;
        let fun = match self.fun_symbol(name) {
            Err(fault) => return Err(fault),
            Ok(fun) => fun,
        };
        let ghost c1 = *self;
        proof {
            assert forall|k: int| 0 <= k < list.len() implies c1.ground().term_denotes(
                (#[trigger] list[k]).id(),
                us[k],
            ) by {
                c0.ground().lemma_term_grow(c1.ground(), list[k].id(), us[k]);
            }
        }
        let result = self.intern_application(fun, args);
        proof {
            c0.lemma_trans(&c1, self);
            if let Ok(t) = result {
                let g = self.ground();
                assert forall|k: int| 0 <= k < list.len() implies g.term_denotes(
                    (#[trigger] list[k]).id(),
                    us[k],
                ) by {
                    c1.ground().lemma_term_grow(g, list[k].id(), us[k]);
                }
                assert(c1.ground().funs.contains_key(name@));
                assert(g.funs.contains_key(name@) && g.funs[name@] == fun);
                let q = applied(name@, us);
                assert forall|model: Model, m: Interp, a: Assignment| #[trigger] g.good(
                    model,
                    m,
                    a,
                ) implies value(g.terms, m, t.id()) == q(model) by {
                    lemma_value_unfold(g.terms, m, t.id());
                    let vals = Seq::new(us.len(), |i: int| us[i](model));
                    assert(values(g.terms, m, term_ids(list)) =~= vals) by {
                        assert forall|k: int| 0 <= k < list.len() implies values(
                            g.terms,
                            m,
                            term_ids(list),
                        )[k] == vals[k] by {
                            assert(g.term_denotes(list[k].id(), us[k]));
                        }
                    }
                    assert((model.funs)(name@, vals) == m(g.funs[name@].id(), vals));
                }
            }
        }
        result
    }

    /// Lowers one expression in Boolean position into a persistent formula.
    pub fn lower_formula(
        &mut self,
        expr: &SExpr,
        env: &mut LetEnv,
        active: &Vec<String>,
        depth: u32,
    ) -> (result: Result<LowerFormulaId, Fault>)
        requires
            old(self).wf(),
        ensures
            final(env).list() == old(env).list(),
            charged(
                old(self).used(),
                final(self).used(),
                result,
                formula_work(
                    Names { definitions: old(self).meanings@, active: token_texts(active@) },
                    old(env)@,
                    expr.form(),
                    depth as nat,
                ),
            ),
            lowered(
                old(self),
                final(self),
                result,
                claim(
                    Names { definitions: old(self).meanings@, active: token_texts(active@) },
                    old(env)@,
                    expr.form(),
                    depth as nat,
                ),
            ),
        decreases depth, 2nat,
    {
        let ghost names = Names { definitions: self.meanings@, active: token_texts(active@) };
        let ghost env0 = env@;
        let ghost meaning = claim(names, env0, expr.form(), depth as nat);
        proof {
            self.lemma_refl();
        }
        if depth == 0 {
            return Err(text_fault("expression nesting too deep"));
        }
        let d: u32 = depth - 1;
        match expr {
            SExpr::Atom(atom) => {
                if let Some(bound) = env.get(atom.as_str()) {
                    return self.lower_formula(&bound, env, active, d);
                }
                if names_contain(active, atom.as_str()) {
                    return Err(
                        Fault::Text(
                            joined3(
                                "cyclic define-fun reference involving `",
                                atom.as_str(),
                                "`",
                            ),
                        ),
                    );
                }
                if let Some(definition) = self.definitions.get(atom.as_str()) {
                    proof {
                        assert(self.definitions@.dom().contains(atom@));
                        assert(self.meanings@.contains_key(atom@));
                    }
                    return match *definition {
                        LoweredDefinitionValue::Formula(id) => Ok(id),
                        LoweredDefinitionValue::Term(_) => Err(
                            Fault::Text(
                                joined3(
                                    "symbol `",
                                    atom.as_str(),
                                    "` denotes a term definition, not a formula",
                                ),
                            ),
                        ),
                    };
                }
                proof {
                    assert(!self.definitions@.dom().contains(atom@));
                    assert(!self.meanings@.contains_key(atom@));
                }
                if same_text(atom.as_str(), "true") {
                    return self.formula_true(Ghost(meaning->Ok_0));
                }
                if same_text(atom.as_str(), "false") {
                    return self.formula_false(Ghost(meaning->Ok_0));
                }
                let ghost c0 = *self;
                let var = match self.bool_symbol(atom) {
                    Err(fault) => return Err(fault),
                    Ok(var) => var,
                };
                let ghost c1 = *self;
                let result = self.intern_formula(FormulaNode::BoolSymbol(var));
                proof {
                    c0.lemma_trans(&c1, self);
                    if let Ok(id) = result {
                        let g = self.ground();
                        let p = meaning->Ok_0;
                        assert(self.nodes()[id.id()].parts[0] == var.0);
                        assert forall|model: Model, m: Interp, a: Assignment| #[trigger] g.good(
                            model,
                            m,
                            a,
                        ) implies node_true(self.nodes(), g.terms, m, a, id.id()) == p(model) by {
                            assert(g.bools.contains_key(atom@));
                            assert((model.bools)(atom@) == a(var.0 as int));
                        }
                    }
                }
                result
            },
            SExpr::List(items) => {
                let ghost fs = forms(*items);
                if items.len() == 0 {
                    return Err(text_fault("formula list must start with an atom"));
                }
                proof {
                    lemma_heads_apart();
                    lemma_list_cost((fs.len() - 1) as nat, fs.len());
                    lemma_short_lists(names, env0, fs, d as nat);
                }
                match &items[0] {
                    SExpr::List(_) => Err(text_fault("formula list must start with an atom")),
                    SExpr::Atom(head) => {
                        if same_text(head.as_str(), "and") {
                            let ghost c0 = *self;
                            let formulas = match self.lower_formulas(items, env, active, d) {
                                Err(fault) => return Err(fault),
                                Ok(formulas) => formulas,
                            };
                            let ghost c1 = *self;
                            let ghost ps = claims(names, env0, fs, fs.len(), d as nat)->Ok_0;
                            let result = self.and_formula(formulas, Ghost(ps));
                            proof {
                                c0.lemma_trans(&c1, self);
                            }
                            return result;
                        }
                        if same_text(head.as_str(), "or") {
                            let ghost c0 = *self;
                            let formulas = match self.lower_formulas(items, env, active, d) {
                                Err(fault) => return Err(fault),
                                Ok(formulas) => formulas,
                            };
                            let ghost c1 = *self;
                            let ghost ps = claims(names, env0, fs, fs.len(), d as nat)->Ok_0;
                            let result = self.or_formula(formulas, Ghost(ps));
                            proof {
                                c0.lemma_trans(&c1, self);
                            }
                            return result;
                        }
                        if same_text(head.as_str(), "not") && items.len() == 2 {
                            let ghost c0 = *self;
                            proof {
                                assert(fs[1] == items@[1].form());
                            }
                            let inner = match self.lower_formula(&items[1], env, active, d) {
                                Err(fault) => return Err(fault),
                                Ok(inner) => inner,
                            };
                            let ghost c1 = *self;
                            let ghost p = claim(names, env0, fs[1], d as nat)->Ok_0;
                            let result = self.formula_not(
                                inner,
                                Ghost(p),
                                Ghost(meaning->Ok_0),
                            );
                            proof {
                                c0.lemma_trans(&c1, self);
                            }
                            return result;
                        }
                        if same_text(head.as_str(), "=>") && items.len() == 3 {
                            let ghost c0 = *self;
                            proof {
                                assert(fs[1] == items@[1].form());
                                assert(fs[2] == items@[2].form());
                            }
                            let premise = match self.lower_formula(&items[1], env, active, d) {
                                Err(fault) => return Err(fault),
                                Ok(id) => id,
                            };
                            let ghost c1 = *self;
                            let ghost p = claim(names, env0, fs[1], d as nat)->Ok_0;
                            let ghost q = claim(names, env0, fs[2], d as nat)->Ok_0;
                            let conclusion = match self.lower_formula(&items[2], env, active, d) {
                                Err(fault) => {
                                    proof {
                                        c0.lemma_trans(&c1, self);
                                    }
                                    return Err(fault);
                                },
                                Ok(id) => id,
                            };
                            let ghost c2 = *self;
                            proof {
                                c0.lemma_trans(&c1, &c2);
                                c1.lemma_denotes(&c2, premise.id(), p);
                            }
                            let result = self.formula_implies(
                                premise,
                                conclusion,
                                Ghost(p),
                                Ghost(q),
                                Ghost(meaning->Ok_0),
                            );
                            proof {
                                c0.lemma_trans(&c2, self);
                            }
                            return result;
                        }
                        if same_text(head.as_str(), "=") {
                            return self.lower_formula_equal(expr, env, active, depth);
                        }
                        if same_text(head.as_str(), "distinct") {
                            return self.lower_formula_distinct(expr, env, active, depth);
                        }
                        if same_text(head.as_str(), "ite") && items.len() == 4 {
                            let ghost c0 = *self;
                            proof {
                                assert(fs[1] == items@[1].form());
                                assert(fs[2] == items@[2].form());
                                assert(fs[3] == items@[3].form());
                            }
                            let ghost c = claim(names, env0, fs[1], d as nat)->Ok_0;
                            let ghost t = claim(names, env0, fs[2], d as nat)->Ok_0;
                            let ghost e = claim(names, env0, fs[3], d as nat)->Ok_0;
                            let cond = match self.lower_formula(&items[1], env, active, d) {
                                Err(fault) => return Err(fault),
                                Ok(id) => id,
                            };
                            let ghost c1 = *self;
                            let then_branch = match self.lower_formula(&items[2], env, active, d) {
                                Err(fault) => {
                                    proof {
                                        c0.lemma_trans(&c1, self);
                                    }
                                    return Err(fault);
                                },
                                Ok(id) => id,
                            };
                            let ghost c2 = *self;
                            proof {
                                c0.lemma_trans(&c1, &c2);
                                c1.lemma_denotes(&c2, cond.id(), c);
                            }
                            let else_branch = match self.lower_formula(&items[3], env, active, d) {
                                Err(fault) => {
                                    proof {
                                        c0.lemma_trans(&c2, self);
                                    }
                                    return Err(fault);
                                },
                                Ok(id) => id,
                            };
                            let ghost c3 = *self;
                            proof {
                                c0.lemma_trans(&c2, &c3);
                                c2.lemma_denotes(&c3, cond.id(), c);
                                c2.lemma_denotes(&c3, then_branch.id(), t);
                            }
                            let result = self.formula_ite(
                                cond,
                                then_branch,
                                else_branch,
                                Ghost(c),
                                Ghost(t),
                                Ghost(e),
                                Ghost(meaning->Ok_0),
                            );
                            proof {
                                c0.lemma_trans(&c3, self);
                            }
                            return result;
                        }
                        if same_text(head.as_str(), "let") && items.len() == 3 {
                            return self.lower_formula_let(expr, env, active, depth);
                        }
                        Err(
                            Fault::Text(
                                joined3(
                                    "unsupported formula shape headed by `",
                                    head.as_str(),
                                    "`",
                                ),
                            ),
                        )
                    },
                }
            },
        }
    }

    /// Lowers the items of a list after its head as formulas.
    fn lower_formulas(
        &mut self,
        items: &Vec<SExpr>,
        env: &mut LetEnv,
        active: &Vec<String>,
        depth: u32,
    ) -> (result: Result<Vec<LowerFormulaId>, Fault>)
        requires
            old(self).wf(),
            items@.len() > 0,
        ensures
            final(env).list() == old(env).list(),
            result matches Ok(ids) ==> ids@.len() == items@.len() - 1,
            charged(
                old(self).used(),
                final(self).used(),
                result,
                formulas_work(
                    Names { definitions: old(self).meanings@, active: token_texts(active@) },
                    old(env)@,
                    forms(*items),
                    items@.len(),
                    depth as nat,
                ),
            ),
            final(self).wf(),
            old(self).grows_to(final(self)),
            ({
                let meaning = claims(
                    Names { definitions: old(self).meanings@, active: token_texts(active@) },
                    old(env)@,
                    forms(*items),
                    items@.len(),
                    depth as nat,
                );
                match result {
                    Ok(ids) => meaning is Ok && final(self).formulas_denote(ids@, meaning->Ok_0),
                    Err(Fault::Text(text)) => meaning == Err::<Seq<Claim>, Seq<char>>(text@),
                    Err(Fault::Full(_)) => final(self).full(),
                }
            }),
        decreases depth, 3nat,
    {
        let ghost names = Names { definitions: self.meanings@, active: token_texts(active@) };
        let ghost env0 = env@;
        let ghost fs = forms(*items);
        let ghost c0 = *self;
        let ghost dn = depth as nat;
        let mut ids: Vec<LowerFormulaId> = Vec::new();
        let ghost mut ps: Seq<Claim> = Seq::empty();
        let mut i: usize = 1;
        proof {
            self.lemma_refl();
        }
        while i < items.len()
            invariant
                1 <= i <= items.len(),
                fs == forms(*items),
                c0 == *old(self),
                c0.wf(),
                self.wf(),
                c0.grows_to(self),
                self.used() <= c0.used() + formulas_work(names, env0, fs, i as nat, dn),
                ids@.len() == i - 1,
                env.list() == old(env).list(),
                env0 == old(env)@,
                dn == depth as nat,
                names == (Names { definitions: c0.meanings@, active: token_texts(active@) }),
                claims(names, env0, fs, i as nat, dn) == Ok::<Seq<Claim>, Seq<char>>(ps),
                self.formulas_denote(ids@, ps),
            decreases items.len() - i,
        {
            let ghost c1 = *self;
            proof {
                assert(fs[i as int] == items@[i as int].form());
                lemma_formulas_work(names, env0, fs, (i + 1) as nat, fs.len(), dn);
            }
            match self.lower_formula(&items[i], env, active, depth) {
                Err(fault) => {
                    proof {
                        c0.lemma_trans(&c1, self);
                        if fault is Text {
                            lemma_claims_err(names, env0, fs, (i + 1) as nat, fs.len(), dn);
                        }
                    }
                    return Err(fault);
                },
                Ok(id) => {
                    proof {
                        c0.lemma_trans(&c1, self);
                        let p = claim(names, env0, fs[i as int], dn)->Ok_0;
                        assert forall|k: int| 0 <= k < ids@.len() implies node_denotes(
                            self.ground(),
                            self.nodes(),
                            (#[trigger] ids@[k]).id(),
                            ps[k],
                        ) by {
                            c1.lemma_denotes(self, ids@[k].id(), ps[k]);
                        }
                        ps = ps.push(p);
                    }
                    ids.push(id);
                },
            }
            i += 1;
        }
        Ok(ids)
    }

    /// Lowers the items of a list after its head as terms, where they are terms.
    fn lower_maybe_terms(
        &mut self,
        items: &Vec<SExpr>,
        env: &mut LetEnv,
        active: &Vec<String>,
        depth: u32,
    ) -> (result: Result<Vec<Option<TermId>>, Fault>)
        requires
            old(self).wf(),
            items@.len() > 0,
        ensures
            final(env).list() == old(env).list(),
            result matches Ok(values) ==> values@.len() == items@.len() - 1,
            charged(
                old(self).used(),
                final(self).used(),
                result,
                terms_work(
                    Names { definitions: old(self).meanings@, active: token_texts(active@) },
                    old(env)@,
                    forms(*items),
                    items@.len(),
                    depth as nat,
                ),
            ),
            final(self).wf(),
            old(self).grows_to(final(self)),
            ({
                let meaning = quantities(
                    Names { definitions: old(self).meanings@, active: token_texts(active@) },
                    old(env)@,
                    forms(*items),
                    items@.len(),
                    depth as nat,
                );
                match result {
                    Ok(list) => {
                        &&& meaning is Ok
                        &&& list@.len() == (meaning->Ok_0).len()
                        &&& forall|k: int|
                            0 <= k < list@.len() ==> maybe_denotes(
                                final(self),
                                #[trigger] list@[k],
                                (meaning->Ok_0)[k],
                            )
                    },
                    Err(Fault::Text(text)) => meaning == Err::<
                        Seq<Option<Quantity>>,
                        Seq<char>,
                    >(text@),
                    Err(Fault::Full(_)) => final(self).full(),
                }
            }),
        decreases depth, 3nat,
    {
        let ghost names = Names { definitions: self.meanings@, active: token_texts(active@) };
        let ghost env0 = env@;
        let ghost fs = forms(*items);
        let ghost c0 = *self;
        let ghost dn = depth as nat;
        let mut list: Vec<Option<TermId>> = Vec::new();
        let ghost mut us: Seq<Option<Quantity>> = Seq::empty();
        let mut i: usize = 1;
        proof {
            self.lemma_refl();
        }
        while i < items.len()
            invariant
                1 <= i <= items.len(),
                fs == forms(*items),
                c0 == *old(self),
                c0.wf(),
                self.wf(),
                c0.grows_to(self),
                self.used() <= c0.used() + terms_work(names, env0, fs, i as nat, dn),
                env.list() == old(env).list(),
                env0 == old(env)@,
                dn == depth as nat,
                names == (Names { definitions: c0.meanings@, active: token_texts(active@) }),
                quantities(names, env0, fs, i as nat, dn) == Ok::<
                    Seq<Option<Quantity>>,
                    Seq<char>,
                >(us),
                list@.len() == i - 1,
                list@.len() == us.len(),
                forall|k: int|
                    0 <= k < list@.len() ==> maybe_denotes(self, #[trigger] list@[k], us[k]),
            decreases items.len() - i,
        {
            let ghost c1 = *self;
            proof {
                assert(fs[i as int] == items@[i as int].form());
                lemma_terms_work(names, env0, fs, (i + 1) as nat, fs.len(), dn);
            }
            match self.lower_maybe_term(&items[i], env, active, depth) {
                Err(fault) => {
                    proof {
                        c0.lemma_trans(&c1, self);
                        if fault is Text {
                            lemma_quantities_err(names, env0, fs, (i + 1) as nat, fs.len(), dn);
                        }
                    }
                    return Err(fault);
                },
                Ok(t) => {
                    proof {
                        c0.lemma_trans(&c1, self);
                        let u = quantity(names, env0, fs[i as int], dn)->Ok_0;
                        assert forall|k: int| 0 <= k < list@.len() implies maybe_denotes(
                            self,
                            #[trigger] list@[k],
                            us[k],
                        ) by {
                            assert(maybe_denotes(&c1, list@[k], us[k]));
                            if let Some(x) = list@[k] {
                                c1.ground().lemma_term_grow(self.ground(), x.id(), us[k]->0);
                            }
                        }
                        us = us.push(u);
                    }
                    list.push(t);
                },
            }
            i += 1;
        }
        Ok(list)
    }

    /// Lowers equality chains, over terms where all arguments are terms and over formulas elsewhere.
    fn lower_formula_equal(
        &mut self,
        expr: &SExpr,
        env: &mut LetEnv,
        active: &Vec<String>,
        depth: u32,
    ) -> (result: Result<LowerFormulaId, Fault>)
        requires
            old(self).wf(),
            depth > 0,
            *expr is List,
            head_of(forms(expr->List_0)) == Some("="@),
            head_of(forms(expr->List_0)) != Some("and"@),
            head_of(forms(expr->List_0)) != Some("or"@),
            head_of(forms(expr->List_0)) != Some("not"@) || forms(expr->List_0).len() != 2,
            head_of(forms(expr->List_0)) != Some("=>"@) || forms(expr->List_0).len() != 3,
        ensures
            final(env).list() == old(env).list(),
            charged(
                old(self).used(),
                final(self).used(),
                result,
                formula_work(
                    Names { definitions: old(self).meanings@, active: token_texts(active@) },
                    old(env)@,
                    expr.form(),
                    depth as nat,
                ),
            ),
            lowered(
                old(self),
                final(self),
                result,
                claim(
                    Names { definitions: old(self).meanings@, active: token_texts(active@) },
                    old(env)@,
                    expr.form(),
                    depth as nat,
                ),
            ),
        decreases depth, 1nat,
    {
        let ghost names = Names { definitions: self.meanings@, active: token_texts(active@) };
        let ghost env0 = env@;
        let ghost meaning = claim(names, env0, expr.form(), depth as nat);
        let ghost c0 = *self;
        let d: u32 = depth - 1;
        match expr {
            SExpr::Atom(_) => Err(Fault::Full("formula must be a list".to_owned())),
            SExpr::List(items) => {
                let ghost fs = forms(*items);
                proof {
                    lemma_heads_apart();
                    lemma_list_cost((fs.len() - 1) as nat, fs.len());
                    lemma_list_cost(0, fs.len());
                }
                if items.len() < 3 {
                    return self.formula_true(Ghost(meaning->Ok_0));
                }
                let values = match self.lower_maybe_terms(items, env, active, d) {
                    Err(fault) => return Err(fault),
                    Ok(values) => values,
                };
                let ghost us = quantities(names, env0, fs, fs.len(), d as nat)->Ok_0;
                let ghost c1 = *self;
                match all_some(&values) {
                    Some(terms) => {
                        proof {
                            lemma_all_terms(&c1, values@, terms@, us);
                        }
                        let result = self.term_eq(terms, Ghost(terms_only(us)));
                        proof {
                            c0.lemma_trans(&c1, self);
                        }
                        result
                    },
                    None => {
                        proof {
                            lemma_not_all_terms(&c1, values@, us);
                        }
                        let formulas = match self.lower_formulas(items, env, active, d) {
                            Err(fault) => {
                                proof {
                                    c0.lemma_trans(&c1, self);
                                }
                                return Err(fault);
                            },
                            Ok(formulas) => formulas,
                        };
                        let ghost c2 = *self;
                        let ghost ps = claims(names, env0, fs, fs.len(), d as nat)->Ok_0;
                        let result = self.bool_eq(formulas, Ghost(ps));
                        proof {
                            c0.lemma_trans(&c1, &c2);
                            c0.lemma_trans(&c2, self);
                        }
                        result
                    },
                }
            },
        }
    }

    /// Lowers pairwise disequalities into one persistent formula.
    fn lower_formula_distinct(
        &mut self,
        expr: &SExpr,
        env: &mut LetEnv,
        active: &Vec<String>,
        depth: u32,
    ) -> (result: Result<LowerFormulaId, Fault>)
        requires
            old(self).wf(),
            depth > 0,
            *expr is List,
            head_of(forms(expr->List_0)) == Some("distinct"@),
            head_of(forms(expr->List_0)) != Some("and"@),
            head_of(forms(expr->List_0)) != Some("or"@),
            head_of(forms(expr->List_0)) != Some("not"@) || forms(expr->List_0).len() != 2,
            head_of(forms(expr->List_0)) != Some("=>"@) || forms(expr->List_0).len() != 3,
            head_of(forms(expr->List_0)) != Some("="@),
        ensures
            final(env).list() == old(env).list(),
            charged(
                old(self).used(),
                final(self).used(),
                result,
                formula_work(
                    Names { definitions: old(self).meanings@, active: token_texts(active@) },
                    old(env)@,
                    expr.form(),
                    depth as nat,
                ),
            ),
            lowered(
                old(self),
                final(self),
                result,
                claim(
                    Names { definitions: old(self).meanings@, active: token_texts(active@) },
                    old(env)@,
                    expr.form(),
                    depth as nat,
                ),
            ),
        decreases depth, 1nat,
    {
        let ghost names = Names { definitions: self.meanings@, active: token_texts(active@) };
        let ghost env0 = env@;
        let ghost meaning = claim(names, env0, expr.form(), depth as nat);
        let ghost c0 = *self;
        let d: u32 = depth - 1;
        match expr {
            SExpr::Atom(_) => Err(Fault::Full("formula must be a list".to_owned())),
            SExpr::List(items) => {
                let ghost fs = forms(*items);
                proof {
                    lemma_heads_apart();
                    lemma_list_cost((fs.len() - 1) as nat, fs.len());
                    lemma_list_cost(0, fs.len());
                }
                if items.len() < 3 {
                    return self.formula_true(Ghost(meaning->Ok_0));
                }
                let values = match self.lower_maybe_terms(items, env, active, d) {
                    Err(fault) => return Err(fault),
                    Ok(values) => values,
                };
                let ghost us = quantities(names, env0, fs, fs.len(), d as nat)->Ok_0;
                let ghost c1 = *self;
                match all_some(&values) {
                    Some(terms) => {
                        proof {
                            lemma_all_terms(&c1, values@, terms@, us);
                        }
                        let result = self.distinct(terms, Ghost(terms_only(us)));
                        proof {
                            c0.lemma_trans(&c1, self);
                        }
                        result
                    },
                    None => {
                        proof {
                            lemma_not_all_terms(&c1, values@, us);
                        }
                        Err(text_fault("distinct contains a non-term argument"))
                    },
                }
            },
        }
    }

    /// Applies temporary bindings, lowers the body, then restores the environment.
    fn lower_formula_let(
        &mut self,
        expr: &SExpr,
        env: &mut LetEnv,
        active: &Vec<String>,
        depth: u32,
    ) -> (result: Result<LowerFormulaId, Fault>)
        requires
            old(self).wf(),
            depth > 0,
            *expr is List,
            (expr->List_0)@.len() == 3,
            head_of(forms(expr->List_0)) == Some("let"@),
            head_of(forms(expr->List_0)) != Some("and"@),
            head_of(forms(expr->List_0)) != Some("or"@),
            head_of(forms(expr->List_0)) != Some("=>"@),
            head_of(forms(expr->List_0)) != Some("="@),
            head_of(forms(expr->List_0)) != Some("distinct"@),
        ensures
            final(env).list() == old(env).list(),
            charged(
                old(self).used(),
                final(self).used(),
                result,
                formula_work(
                    Names { definitions: old(self).meanings@, active: token_texts(active@) },
                    old(env)@,
                    expr.form(),
                    depth as nat,
                ),
            ),
            lowered(
                old(self),
                final(self),
                result,
                claim(
                    Names { definitions: old(self).meanings@, active: token_texts(active@) },
                    old(env)@,
                    expr.form(),
                    depth as nat,
                ),
            ),
        decreases depth, 1nat,
    {
        let d: u32 = depth - 1;
        let ghost list0 = env.list();
        proof {
            self.lemma_refl();
            assert(list0.take(list0.len() as int) =~= list0);
        }
        match expr {
            SExpr::Atom(_) => Err(Fault::Full("formula must be a list".to_owned())),
            SExpr::List(items) => {
                let ghost fs = forms(*items);
                proof {
                    assert(fs[1] == items@[1].form());
                    assert(fs[2] == items@[2].form());
                }
                let len = env.len();
                match env.bind_list(&items[1]) {
                    Err(fault) => {
                        env.rollback(len);
                        Err(fault)
                    },
                    Ok(_) => {
                        let result = self.lower_formula(&items[2], env, active, d);
                        env.rollback(len);
                        result
                    },
                }
            },
        }
    }

    /// Converts `expr` to a term where it denotes one.
    pub fn lower_maybe_term(
        &mut self,
        expr: &SExpr,
        env: &mut LetEnv,
        active: &Vec<String>,
        depth: u32,
    ) -> (result: Result<Option<TermId>, Fault>)
        requires
            old(self).wf(),
        ensures
            final(env).list() == old(env).list(),
            charged(
                old(self).used(),
                final(self).used(),
                result,
                term_work(
                    Names { definitions: old(self).meanings@, active: token_texts(active@) },
                    old(env)@,
                    expr.form(),
                    depth as nat,
                ),
            ),
            lowered_term(
                old(self),
                final(self),
                result,
                quantity(
                    Names { definitions: old(self).meanings@, active: token_texts(active@) },
                    old(env)@,
                    expr.form(),
                    depth as nat,
                ),
            ),
        decreases depth, 2nat,
    {
        let ghost names = Names { definitions: self.meanings@, active: token_texts(active@) };
        let ghost env0 = env@;
        let ghost meaning = quantity(names, env0, expr.form(), depth as nat);
        let ghost c0 = *self;
        proof {
            self.lemma_refl();
        }
        if depth == 0 {
            return Err(text_fault("expression nesting too deep"));
        }
        let d: u32 = depth - 1;
        match expr {
            SExpr::Atom(atom) => {
                if same_text(atom.as_str(), "true") || same_text(atom.as_str(), "false") {
                    return Ok(None);
                }
                if let Some(bound) = env.get(atom.as_str()) {
                    return self.lower_maybe_term(&bound, env, active, d);
                }
                if names_contain(active, atom.as_str()) {
                    return Err(
                        Fault::Text(
                            joined3(
                                "cyclic define-fun reference involving `",
                                atom.as_str(),
                                "`",
                            ),
                        ),
                    );
                }
                if let Some(definition) = self.definitions.get(atom.as_str()) {
                    proof {
                        assert(self.definitions@.dom().contains(atom@));
                        assert(self.meanings@.contains_key(atom@));
                    }
                    return match *definition {
                        LoweredDefinitionValue::Formula(_) => Ok(None),
                        LoweredDefinitionValue::Term(t) => Ok(Some(t)),
                    };
                }
                proof {
                    assert(!self.definitions@.dom().contains(atom@));
                    assert(!self.meanings@.contains_key(atom@));
                }
                let ghost none: Seq<Quantity> = Seq::empty();
                match self.lower_applied(atom, Vec::new(), Ghost(none)) {
                    Err(fault) => Err(fault),
                    Ok(t) => Ok(Some(t)),
                }
            },
            SExpr::List(items) => {
                let ghost fs = forms(*items);
                if items.len() == 0 {
                    return Err(text_fault("term list must start with an atom"));
                }
                match &items[0] {
                    SExpr::List(_) => Err(text_fault("term list must start with an atom")),
                    SExpr::Atom(head) => {
                        if same_text(head.as_str(), "let") && items.len() == 3 {
                            return self.lower_term_let(expr, env, active, depth);
                        }
                        if same_text(head.as_str(), "ite") && items.len() == 4 {
                            return self.lower_term_ite(expr, env, active, depth);
                        }
                        if same_text(head.as_str(), "and") || same_text(head.as_str(), "or")
                            || same_text(head.as_str(), "not") || same_text(head.as_str(), "=>")
                            || same_text(head.as_str(), "=") || same_text(
                            head.as_str(),
                            "distinct",
                        ) {
                            return Ok(None);
                        }
                        let values = match self.lower_maybe_terms(items, env, active, d) {
                            Err(fault) => return Err(fault),
                            Ok(values) => values,
                        };
                        let ghost us = quantities(names, env0, fs, fs.len(), d as nat)->Ok_0;
                        let ghost c1 = *self;
                        match all_some(&values) {
                            None => {
                                proof {
                                    lemma_not_all_terms(&c1, values@, us);
                                }
                                Err(text_fault("function application contains a non-term argument"))
                            },
                            Some(terms) => {
                                proof {
                                    lemma_all_terms(&c1, values@, terms@, us);
                                }
                                let result = self.lower_applied(head, terms, Ghost(terms_only(us)));
                                proof {
                                    c0.lemma_trans(&c1, self);
                                }
                                match result {
                                    Err(fault) => Err(fault),
                                    Ok(t) => Ok(Some(t)),
                                }
                            },
                        }
                    },
                }
            },
        }
    }

    /// Lowers one conditional term.
    fn lower_term_ite(
        &mut self,
        expr: &SExpr,
        env: &mut LetEnv,
        active: &Vec<String>,
        depth: u32,
    ) -> (result: Result<Option<TermId>, Fault>)
        requires
            old(self).wf(),
            depth > 0,
            *expr is List,
            (expr->List_0)@.len() == 4,
            head_of(forms(expr->List_0)) == Some("ite"@),
        ensures
            final(env).list() == old(env).list(),
            charged(
                old(self).used(),
                final(self).used(),
                result,
                term_work(
                    Names { definitions: old(self).meanings@, active: token_texts(active@) },
                    old(env)@,
                    expr.form(),
                    depth as nat,
                ),
            ),
            lowered_term(
                old(self),
                final(self),
                result,
                quantity(
                    Names { definitions: old(self).meanings@, active: token_texts(active@) },
                    old(env)@,
                    expr.form(),
                    depth as nat,
                ),
            ),
        decreases depth, 1nat,
    {
        let ghost names = Names { definitions: self.meanings@, active: token_texts(active@) };
        let ghost env0 = env@;
        let ghost c0 = *self;
        let d: u32 = depth - 1;
        proof {
            self.lemma_refl();
        }
        match expr {
            SExpr::Atom(_) => Err(Fault::Full("term must be a list".to_owned())),
            SExpr::List(items) => {
                let ghost fs = forms(*items);
                proof {
                    assert(fs[1] == items@[1].form());
                    assert(fs[2] == items@[2].form());
                    assert(fs[3] == items@[3].form());
                }
                let ghost c = claim(names, env0, fs[1], d as nat)->Ok_0;
                let cond = match self.lower_formula(&items[1], env, active, d) {
                    Err(fault) => return Err(fault),
                    Ok(id) => id,
                };
                let ghost c1 = *self;
                let then_branch = match self.lower_maybe_term(&items[2], env, active, d) {
                    Err(fault) => {
                        proof {
                            c0.lemma_trans(&c1, self);
                        }
                        return Err(fault);
                    },
                    Ok(t) => t,
                };
                let ghost c2 = *self;
                proof {
                    c0.lemma_trans(&c1, &c2);
                    c1.lemma_denotes(&c2, cond.id(), c);
                }
                let then_term = match then_branch {
                    None => {
                        return Err(text_fault("term ite then-branch is not a term"));
                    },
                    Some(t) => t,
                };
                let ghost u = (quantity(names, env0, fs[2], d as nat)->Ok_0)->0;
                let else_branch = match self.lower_maybe_term(&items[3], env, active, d) {
                    Err(fault) => {
                        proof {
                            c0.lemma_trans(&c2, self);
                        }
                        return Err(fault);
                    },
                    Ok(t) => t,
                };
                let ghost c3 = *self;
                proof {
                    c0.lemma_trans(&c2, &c3);
                    c2.lemma_denotes(&c3, cond.id(), c);
                    c2.ground().lemma_term_grow(c3.ground(), then_term.id(), u);
                }
                let else_term = match else_branch {
                    None => {
                        return Err(text_fault("term ite else-branch is not a term"));
                    },
                    Some(t) => t,
                };
                let ghost v = (quantity(names, env0, fs[3], d as nat)->Ok_0)->0;
                if then_term == else_term {
                    proof {
                        let g = c3.ground();
                        assert forall|model: Model, m: Interp, a: Assignment| #[trigger] g.good(
                            model,
                            m,
                            a,
                        ) implies value(g.terms, m, then_term.id()) == either(c, u, v)(model) by {
                            assert(value(g.terms, m, then_term.id()) == u(model));
                            assert(value(g.terms, m, else_term.id()) == v(model));
                        }
                    }
                    return Ok(Some(then_term));
                }
                let result = self.intern_choice(
                    cond,
                    then_term,
                    else_term,
                    Ghost(c),
                    Ghost(u),
                    Ghost(v),
                );
                proof {
                    c0.lemma_trans(&c3, self);
                }
                match result {
                    Err(fault) => Err(fault),
                    Ok(t) => Ok(Some(t)),
                }
            },
        }
    }

    /// Applies temporary bindings, lowers the body as a term, then restores the environment.
    fn lower_term_let(
        &mut self,
        expr: &SExpr,
        env: &mut LetEnv,
        active: &Vec<String>,
        depth: u32,
    ) -> (result: Result<Option<TermId>, Fault>)
        requires
            old(self).wf(),
            depth > 0,
            *expr is List,
            (expr->List_0)@.len() == 3,
            head_of(forms(expr->List_0)) == Some("let"@),
        ensures
            final(env).list() == old(env).list(),
            charged(
                old(self).used(),
                final(self).used(),
                result,
                term_work(
                    Names { definitions: old(self).meanings@, active: token_texts(active@) },
                    old(env)@,
                    expr.form(),
                    depth as nat,
                ),
            ),
            lowered_term(
                old(self),
                final(self),
                result,
                quantity(
                    Names { definitions: old(self).meanings@, active: token_texts(active@) },
                    old(env)@,
                    expr.form(),
                    depth as nat,
                ),
            ),
        decreases depth, 1nat,
    {
        let d: u32 = depth - 1;
        let ghost list0 = env.list();
        proof {
            self.lemma_refl();
            assert(list0.take(list0.len() as int) =~= list0);
        }
        match expr {
            SExpr::Atom(_) => Err(Fault::Full("term must be a list".to_owned())),
            SExpr::List(items) => {
                let ghost fs = forms(*items);
                proof {
                    assert(fs[1] == items@[1].form());
                    assert(fs[2] == items@[2].form());
                }
                let len = env.len();
                match env.bind_list(&items[1]) {
                    Err(fault) => {
                        env.rollback(len);
                        Err(fault)
                    },
                    Ok(_) => {
                        let result = self.lower_maybe_term(&items[2], env, active, d);
                        env.rollback(len);
                        result
                    },
                }
            },
        }
    }
}

/// Terms of a list that holds only terms denote its quantities.
proof fn lemma_all_terms(
    c: &LowerContext,
    list: Seq<Option<TermId>>,
    terms: Seq<TermId>,
    us: Seq<Option<Quantity>>,
)
    requires
        list.len() == us.len(),
        terms.len() == list.len(),
        forall|k: int| 0 <= k < list.len() ==> maybe_denotes(c, #[trigger] list[k], us[k]),
        forall|k: int| 0 <= k < list.len() ==> (#[trigger] list[k]) is Some,
        forall|k: int| 0 <= k < list.len() ==> #[trigger] terms[k] == list[k]->0,
    ensures
        all_terms(us),
        c.terms_denote(terms, terms_only(us)),
{
    assert forall|k: int| 0 <= k < us.len() implies (#[trigger] us[k]) is Some by {
        assert(maybe_denotes(c, list[k], us[k]));
        assert(list[k] is Some);
    }
    assert forall|k: int| 0 <= k < terms.len() implies c.ground().term_denotes(
        (#[trigger] terms[k]).id(),
        terms_only(us)[k],
    ) by {
        assert(maybe_denotes(c, list[k], us[k]));
        assert(list[k] is Some);
    }
}

/// A list that does not hold only terms does not denote only quantities.
proof fn lemma_not_all_terms(
    c: &LowerContext,
    list: Seq<Option<TermId>>,
    us: Seq<Option<Quantity>>,
)
    requires
        list.len() == us.len(),
        forall|k: int| 0 <= k < list.len() ==> maybe_denotes(c, #[trigger] list[k], us[k]),
        !(forall|k: int| 0 <= k < list.len() ==> (#[trigger] list[k]) is Some),
    ensures
        !all_terms(us),
{
    let k = choose|k: int| 0 <= k < list.len() && (#[trigger] list[k]) is None;
    assert(maybe_denotes(c, list[k], us[k]));
    assert(us[k] is None);
}

} // verus!
