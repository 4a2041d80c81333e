//! Lowering of expressions into literals and terms.

use crate::euf::ids::{SymbolId, TermId};
use crate::euf::registry::SortView;
use crate::qfuf::connectives::{lemma_views_grow, views_denote};
use crate::qfuf::denote::{
    all_of, any_of, argument_sorts, argument_vals, bare_symbol, chosen, connective, distinct_pairs,
    distinct_row, either_boolean, equality, formula, formulas, head_of, holds, is_boolean,
    is_connective, let_scope, lookup, term, term_as_formula, terms, unknown_symbol, wrong_arity,
    Den, Env, Funs, Prop, Structure, Val,
};
use crate::qfuf::driver::{
    negate_view, view_denotes, view_true, BoolView, Driver, LocalBinding, LowerError,
};
use crate::qfuf::models::{agree, repaired, sig_of, Base};
use crate::qfuf::sexpr::{forms, lemma_forms, lemma_list_form, text_copy, Form, SExpr};
use crate::sat::Assignment;
use crate::text::{decimal, joined, joined3, same_text};
use vstd::hash_map::StringHashMap;
use crate::qfuf::work::{
    binding_work, bindings_work, lemma_bindings_grow, lemma_distinct_work, lemma_four_work,
    lemma_one_work, lemma_row_work, lemma_total_grows, lemma_two_work, lemma_words,
    lemma_work_positive, pair_work, row_work, total_work, work,
};
use vstd::prelude::*;

verus! {

broadcast use {lemma_forms, lemma_list_form};

/// The executable binding stands for the mathematical one.
pub open spec fn binding_ok(base: Base, binding: LocalBinding, den: Den) -> bool {
    match (binding, den) {
        (LocalBinding::Bool(view), Den::Bool(p)) => view_denotes(base, view, p),
        (LocalBinding::Term { term, sort }, Den::Term { sort: s, val }) => {
            &&& base.term_denotes(term, s, val)
            &&& base.reg.term_sorts[term.0 as int] == sort
        },
        _ => false,
    }
}

/// The executable scope stands for the mathematical one.
pub open spec fn scope_ok(
    base: Base,
    scope: Map<Seq<char>, LocalBinding>,
    den: Map<Seq<char>, Den>,
) -> bool {
    &&& scope.dom() == den.dom()
    &&& forall|name: Seq<char>| #[trigger]
        den.contains_key(name) ==> binding_ok(base, scope[name], den[name])
}

/// The outcome of lowering an expression in formula position.
pub open spec fn lowered(
    d: &Driver,
    new: &Driver,
    result: Result<BoolView, LowerError>,
    meaning: Result<Prop, Seq<char>>,
) -> bool {
    &&& new.wf()
    &&& d.grows_to(new)
    &&& match result {
        Ok(view) => meaning is Ok && view_denotes(new.base(), view, meaning->Ok_0),
        Err(LowerError::Text(text)) => meaning == Err::<Prop, Seq<char>>(text@),
        Err(LowerError::Full) => new.full(),
    }
}

/// The outcome of lowering an expression in term position.
pub open spec fn lowered_term(
    d: &Driver,
    new: &Driver,
    result: Result<TermId, LowerError>,
    meaning: Result<(SortView, Val), Seq<char>>,
) -> bool {
    &&& new.wf()
    &&& d.grows_to(new)
    &&& match result {
        Ok(t) => meaning is Ok && new.base().term_denotes(
            t,
            (meaning->Ok_0).0,
            (meaning->Ok_0).1,
        ),
        Err(LowerError::Text(text)) => meaning == Err::<(SortView, Val), Seq<char>>(text@),
        Err(LowerError::Full) => new.full(),
    }
}

/// The outcome of asking whether an expression is Boolean.
pub open spec fn decided(
    d: &Driver,
    new: &Driver,
    result: Result<bool, LowerError>,
    meaning: Result<bool, Seq<char>>,
) -> bool {
    &&& new.wf()
    &&& d.grows_to(new)
    &&& match result {
        Ok(answer) => meaning == Ok::<bool, Seq<char>>(answer),
        Err(LowerError::Text(text)) => meaning == Err::<bool, Seq<char>>(text@),
        Err(LowerError::Full) => new.full(),
    }
}

/// Views denote a predicate up to extensional equality.
pub proof fn lemma_view_same(base: Base, view: BoolView, p: Prop, q: Prop)
    requires
        view_denotes(base, view, p),
        forall|s: Structure| #[trigger] p(s) == q(s),
    ensures
        view_denotes(base, view, q),
{
    if base.clean {
        assert forall|a: Structure, b: Structure| #[trigger] agree(a, b) implies q(a) == q(b) by {
            assert(p(a) == q(a));
            assert(p(b) == q(b));
            assert(p(a) == p(b));
        }
    }
    assert forall|s: Structure, a: Assignment| #[trigger] base.good(s, a) implies view_true(a, view)
        == q(repaired(s)) by {
        assert(p(repaired(s)) == q(repaired(s)));
    }
}

/// A constant view denotes a constant predicate.
proof fn lemma_view_constant(base: Base, view: BoolView, p: Prop)
    requires
        view == BoolView::True && (forall|s: Structure| #[trigger] p(s)) || view == BoolView::False
            && (forall|s: Structure| !#[trigger] p(s)),
    ensures
        view_denotes(base, view, p),
{
    if base.clean {
        assert forall|a: Structure, b: Structure| #[trigger] agree(a, b) implies p(a) == p(b) by {
            assert(view == BoolView::True ==> p(a) && p(b));
            assert(view == BoolView::False ==> !p(a) && !p(b));
        }
    }
    assert forall|s: Structure, a: Assignment| #[trigger] base.good(s, a) implies view_true(a, view)
        == p(repaired(s)) by {
        assert(view == BoolView::True ==> p(repaired(s)));
    }
}

/// The negated view denotes the negated predicate.
proof fn lemma_view_negated(base: Base, view: BoolView, p: Prop, q: Prop)
    requires
        view_denotes(base, view, p),
        forall|s: Structure| #[trigger] q(s) == !p(s),
    ensures
        view_denotes(base, crate::qfuf::driver::negated(view), q),
{
    if base.clean {
        assert forall|a: Structure, b: Structure| #[trigger] agree(a, b) implies q(a) == q(b) by {
            assert(q(a) == !p(a));
            assert(q(b) == !p(b));
            assert(p(a) == p(b));
        }
    }
    assert forall|s: Structure, a: Assignment| #[trigger] base.good(s, a) implies view_true(
        a,
        crate::qfuf::driver::negated(view),
    ) == q(repaired(s)) by {
        assert(q(repaired(s)) == !p(repaired(s)));
        assert(view_true(a, view) == p(repaired(s)));
    }
}

/// Bindings keep their meaning when definitions are added.
pub proof fn lemma_binding_grow(d: &Driver, new: &Driver, binding: LocalBinding, den: Den)
    requires
        d.base().ok(),
        new.base().ok(),
        d.base().extends_to(new.base()),
        binding_ok(d.base(), binding, den),
    ensures
        binding_ok(new.base(), binding, den),
{
    match (binding, den) {
        (LocalBinding::Bool(view), Den::Bool(p)) => {
            d.lemma_view_grow(new, view, p);
        },
        (LocalBinding::Term { term, sort }, Den::Term { sort: s, val }) => {
            d.base().lemma_term_grow(new.base(), term, s, val);
            assert(new.base().reg.term_sorts[term.0 as int] == d.base().reg.term_sorts[term.0 as int]);
        },
        _ => {},
    }
}

/// Scopes keep their meaning when definitions are added.
pub proof fn lemma_scope_grow(
    d: &Driver,
    new: &Driver,
    scope: Map<Seq<char>, LocalBinding>,
    den: Map<Seq<char>, Den>,
)
    requires
        d.base().ok(),
        new.base().ok(),
        d.base().extends_to(new.base()),
        scope_ok(d.base(), scope, den),
    ensures
        scope_ok(new.base(), scope, den),
{
    assert forall|name: Seq<char>| #[trigger] den.contains_key(name) implies binding_ok(
        new.base(),
        scope[name],
        den[name],
    ) by {
        lemma_binding_grow(d, new, scope[name], den[name]);
    }
}

/// Returns an error with this text.
fn text_error(text: &str) -> (error: LowerError)
    ensures
        error == LowerError::Text(error->Text_0),
        (error->Text_0)@ == text@,
{
    LowerError::Text(text.to_owned())
}

/// Returns the message for a symbol that has not been declared.
fn unknown_symbol_error(name: &str) -> (error: LowerError)
    ensures
        error == LowerError::Text(error->Text_0),
        (error->Text_0)@ == unknown_symbol(name@),
{
    LowerError::Text(joined("unknown symbol: ", name))
}

/// Returns the message for a bare symbol that expects arguments.
fn bare_symbol_text(name: &str, arity: u32) -> (text: String)
    ensures
        text@ == bare_symbol(name@, arity as nat),
{
    let start = joined3("symbol `", name, "` expects ");
    let number = decimal(arity as u64);
    joined3(start.as_str(), number.as_str(), " arguments")
}

/// Returns the message for an application to the wrong number of arguments.
fn wrong_arity_text(name: &str, arity: u32, got: usize) -> (text: String)
    ensures
        text@ == wrong_arity(name@, arity as nat, got as nat),
{
    let start = bare_symbol_text(name, arity);
    let number = decimal(got as u64);
    joined3(start.as_str(), ", got ", number.as_str())
}

/// Returns whether a list starts with the given atom.
pub fn head_is(items: &Vec<SExpr>, text: &str) -> (answer: bool)
    ensures
        answer == (head_of(forms(*items)) == Some(text@)),
{
    if items.len() == 0 {
        return false;
    }
    match &items[0] {
        SExpr::Atom(atom) => same_text(atom.as_str(), text),
        SExpr::List(_) => false,
    }
}

/// Returns whether a list starts with the name of a connective.
fn head_is_connective(items: &Vec<SExpr>) -> (answer: bool)
    ensures
        answer == (head_of(forms(*items)) is Some && is_connective(head_of(forms(*items))->0)),
{
    head_is(items, "not") || head_is(items, "and") || head_is(items, "or") || head_is(items, "=>")
        || head_is(items, "xor") || head_is(items, "=") || head_is(items, "distinct")
}

/// Once a prefix of the terms is refused, all longer ones are.
proof fn lemma_terms_err(funs: Funs, env: Env, items: Seq<Form>, k: nat, n: nat)
    requires
        k <= n <= items.len(),
        terms(funs, env, items, k) is Err,
    ensures
        terms(funs, env, items, n) == terms(funs, env, items, k),
    decreases n,
{
    if k < n {
        lemma_terms_err(funs, env, items, k, (n - 1) as nat);
    }
}

/// Once a prefix of the formulas is refused, all longer ones are.
proof fn lemma_formulas_err(funs: Funs, env: Env, items: Seq<Form>, k: nat, n: nat)
    requires
        k <= n <= items.len(),
        formulas(funs, env, items, k) is Err,
    ensures
        formulas(funs, env, items, n) == formulas(funs, env, items, k),
    decreases n,
{
    if k < n {
        lemma_formulas_err(funs, env, items, k, (n - 1) as nat);
    }
}

/// Once a prefix of the bindings is refused, all longer ones are.
proof fn lemma_scope_err(funs: Funs, env: Env, bindings: Seq<Form>, k: nat, n: nat)
    requires
        k <= n <= bindings.len(),
        let_scope(funs, env, bindings, k) is Err,
    ensures
        let_scope(funs, env, bindings, n) == let_scope(funs, env, bindings, k),
    decreases n,
{
    if k < n {
        lemma_scope_err(funs, env, bindings, k, (n - 1) as nat);
    }
}

/// Once a prefix of a row is refused, all longer ones are.
proof fn lemma_row_err(funs: Funs, env: Env, items: Seq<Form>, i: nat, k: nat, n: nat)
    requires
        k <= n <= items.len(),
        distinct_row(funs, env, items, i, k) is Err,
    ensures
        distinct_row(funs, env, items, i, n) == distinct_row(funs, env, items, i, k),
    decreases n,
{
    if k < n {
        assert(distinct_row(funs, env, items, i, k) is Err);
        lemma_row_err(funs, env, items, i, k, (n - 1) as nat);
        assert(k > i + 1);
    }
}

/// Once a prefix of the rows is refused, all longer ones are.
proof fn lemma_pairs_err(funs: Funs, env: Env, items: Seq<Form>, k: nat, n: nat)
    requires
        k <= n <= items.len(),
        distinct_pairs(funs, env, items, k) is Err,
    ensures
        distinct_pairs(funs, env, items, n) == distinct_pairs(funs, env, items, k),
    decreases n,
{
    if k < n {
        lemma_pairs_err(funs, env, items, k, (n - 1) as nat);
    }
}

impl Driver {
    /// The open `let` scopes stand for the mathematical ones.
    pub open spec fn env_ok(&self, env: Env) -> bool {
        &&& self.let_scopes@.len() == env.len()
        &&& forall|k: int|
            0 <= k < env.len() ==> scope_ok(
                self.base(),
                (#[trigger] self.let_scopes@[k])@,
                env[k],
            )
    }

    /// Scopes keep their meaning from step to step.
    proof fn lemma_step(&self, mid: &Driver, new: &Driver, env: Env)
        requires
            self.wf(),
            mid.wf(),
            new.wf(),
            self.grows_to(mid),
            mid.grows_to(new),
            self.env_ok(env),
        ensures
            self.grows_to(new),
            new.env_ok(env),
    {
        self.lemma_grows_trans(mid, new);
        assert forall|k: int| 0 <= k < env.len() implies scope_ok(
            new.base(),
            (#[trigger] new.let_scopes@[k])@,
            env[k],
        ) by {
            assert(scope_ok(self.base(), self.let_scopes@[k]@, env[k]));
            lemma_scope_grow(self, new, self.let_scopes@[k]@, env[k]);
        }
    }

    /// The driver stays consistent when only the `let` scopes change.
    proof fn lemma_scopes_only(&self, new: &Driver)
        requires
            self.wf(),
            *new == (Driver { let_scopes: new.let_scopes, ..*self }),
        ensures
            new.wf(),
            new.base() == self.base(),
    {
        assert forall|name: Seq<char>| #[trigger] new.funs@.contains_key(name) implies new.fun_ok(
            name,
        ) by {
            assert(self.fun_ok(name));
        }
        self.lemma_fresh_names_same(new);
        assert(new.declared());
        assert forall|t: int|
            0 <= t < new.base().reg.terms.len() && new.base().sort(t)
                == SortView::Bool implies #[trigger] new.domain_ok(t) by {
            assert(self.domain_ok(t));
        }
        assert forall|k: int| 0 <= k < new.frames@.len() implies #[trigger] new.frame_ok(k) by {
            assert(self.frame_ok(k));
        }
    }

    /// Looks up one lexically scoped `let` binding by name.
    fn lookup_local_binding(&self, name: &str, Ghost(env): Ghost<Env>) -> (binding: Option<
        LocalBinding,
    >)
        requires
            self.env_ok(env),
        ensures
            binding is Some <==> lookup(env, name@) is Some,
            binding matches Some(found) ==> binding_ok(self.base(), found, lookup(env, name@)->0),
    {
        let mut k: usize = self.let_scopes.len();
        proof {
            assert(env.take(k as int) =~= env);
        }
        while k > 0
            invariant
                k <= self.let_scopes@.len(),
                self.env_ok(env),
                lookup(env, name@) == lookup(env.take(k as int), name@),
            decreases k,
        {
            k -= 1;
            proof {
                assert(env.take(k as int + 1).last() == env[k as int]);
                assert(env.take(k as int + 1).drop_last() =~= env.take(k as int));
                assert(scope_ok(self.base(), self.let_scopes@[k as int]@, env[k as int]));
            }
            if let Some(binding) = self.let_scopes[k].get(name) {
                proof {
                    assert(env[k as int].dom().contains(name@));
                }
                return Some(*binding);
            }
            proof {
                assert(!env[k as int].dom().contains(name@));
            }
        }
        None
    }

    /// Pushes one new lexical binding scope for nested `let` lowering.
    fn push_let_scope(
        &mut self,
        scope: StringHashMap<LocalBinding>,
        Ghost(env): Ghost<Env>,
        Ghost(den): Ghost<Map<Seq<char>, Den>>,
    )
        requires
            old(self).wf(),
            old(self).env_ok(env),
            scope_ok(old(self).base(), scope@, den),
        ensures
            final(self).wf(),
            final(self).env_ok(env.push(den)),
            final(self).base() == old(self).base(),
            *final(self) == (Driver { let_scopes: final(self).let_scopes, ..*old(self) }),
            final(self).let_scopes@ == old(self).let_scopes@.push(scope),
    {
        self.let_scopes.push(scope);
        proof {
            old(self).lemma_scopes_only(self);
            let more = env.push(den);
            assert forall|k: int| 0 <= k < more.len() implies scope_ok(
                self.base(),
                (#[trigger] self.let_scopes@[k])@,
                more[k],
            ) by {
                if k < env.len() {
                    assert(self.let_scopes@[k] == old(self).let_scopes@[k]);
                }
            }
        }
    }

    /// Pops the most recent lexical binding scope.
    fn pop_let_scope(&mut self)
        requires
            old(self).wf(),
            old(self).let_scopes@.len() > 0,
        ensures
            final(self).wf(),
            final(self).base() == old(self).base(),
            *final(self) == (Driver { let_scopes: final(self).let_scopes, ..*old(self) }),
            final(self).let_scopes@ == old(self).let_scopes@.drop_last(),
    {
        let _ = self.let_scopes.pop();
        proof {
            old(self).lemma_scopes_only(self);
        }
    }

    /// Evaluates one `let` binding list in the outer scope.
    fn lower_let_bindings(&mut self, bindings: &SExpr, Ghost(env): Ghost<Env>) -> (result: Result<
        StringHashMap<LocalBinding>,
        LowerError,
    >)
        requires
            old(self).wf(),
            old(self).env_ok(env),
            *bindings is List,
        ensures
            final(self).wf(),
            old(self).grows_to(final(self)),
            final(self).used() <= old(self).used() + bindings_work(
                forms(bindings->List_0),
                forms(bindings->List_0).len(),
            ),
            ({
                let items = forms(bindings->List_0);
                let meaning = let_scope(old(self).decls@, env, items, items.len());
                match result {
                    Ok(scope) => meaning is Ok && scope_ok(
                        final(self).base(),
                        scope@,
                        meaning->Ok_0,
                    ),
                    Err(LowerError::Text(text)) => meaning == Err::<
                        Map<Seq<char>, Den>,
                        Seq<char>,
                    >(text@),
                    Err(LowerError::Full) => final(self).full(),
                }
            }),
        decreases *bindings, 3nat,
    {
        let mut scope: StringHashMap<LocalBinding> = StringHashMap::new();
        let ghost d0 = *self;
        let ghost funs = self.decls@;
        proof {
            self.lemma_grows_refl();
        }
        if let SExpr::List(items) = bindings {
            let ghost fs = forms(*items);
            let ghost mut den: Map<Seq<char>, Den> = Map::empty();
            let mut i: usize = 0;
            proof {
                assert(scope@.dom() =~= den.dom());
            }
            while i < items.len()
                invariant
                    0 <= i <= items.len(),
                    *bindings is List,
                    bindings->List_0 == *items,
                    fs == forms(*items),
                    d0.wf(),
                    d0.env_ok(env),
                    self.wf(),
                    self.env_ok(env),
                    d0.grows_to(self),
                    d0 == *old(self),
                    funs == d0.decls@,
                    self.used() <= d0.used() + bindings_work(fs, i as nat),
                    let_scope(funs, env, fs, i as nat) == Ok::<Map<Seq<char>, Den>, Seq<char>>(den),
                    scope_ok(self.base(), scope@, den),
                decreases items.len() - i,
            {
                let ghost d1 = *self;
                let ghost name0 = fs[i as int]->List_0[0]->Atom_0;
                proof {
                    assert(fs[i as int] == items@[i as int].form());
                    assert(decreases_to!(bindings->List_0 => bindings->List_0[i as int]));
                }
                match self.lower_binding(&items[i], Ghost(env)) {
                    Err(error) => {
                        proof {
                            d0.lemma_step(&d1, self, env);
                            lemma_bindings_grow(fs, (i + 1) as nat, fs.len());
                            if error is Text {
                                lemma_scope_err(funs, env, fs, (i + 1) as nat, fs.len());
                            }
                        }
                        return Err(error);
                    },
                    Ok((name, binding)) => {
                        proof {
                            d0.lemma_step(&d1, self, env);
                            lemma_scope_grow(&d1, self, scope@, den);
                            let next = let_scope(funs, env, fs, (i + 1) as nat);
                            let more = next->Ok_0;
                            assert(next is Ok);
                            assert(more == den.insert(name@, more[name@]));
                            assert(scope@.insert(name@, binding).dom() =~= more.dom());
                            assert forall|n: Seq<char>| #[trigger]
                                more.contains_key(n) implies binding_ok(
                                self.base(),
                                scope@.insert(name@, binding)[n],
                                more[n],
                            ) by {
                                if n != name@ {
                                    assert(den.contains_key(n));
                                }
                            }
                            den = more;
                        }
                        scope.insert(name, binding);
                    },
                }
                i += 1;
            }
        }
        Ok(scope)
    }

    /// Evaluates one `let` binding.
    fn lower_binding(&mut self, pair: &SExpr, Ghost(env): Ghost<Env>) -> (result: Result<
        (String, LocalBinding),
        LowerError,
    >)
        requires
            old(self).wf(),
            old(self).env_ok(env),
        ensures
            final(self).wf(),
            old(self).grows_to(final(self)),
            final(self).used() <= old(self).used() + binding_work(pair.form()),
            forall|bindings: Seq<Form>, n: nat|
                0 < n <= bindings.len() && bindings[n - 1] == pair.form() && let_scope(
                    old(self).decls@,
                    env,
                    bindings,
                    (n - 1) as nat,
                ) is Ok ==> {
                    let rest = let_scope(old(self).decls@, env, bindings, (n - 1) as nat)->Ok_0;
                    let meaning = #[trigger] let_scope(old(self).decls@, env, bindings, n);
                    match result {
                        Ok((name, binding)) => {
                            &&& meaning is Ok
                            &&& meaning->Ok_0 == rest.insert(name@, (meaning->Ok_0)[name@])
                            &&& binding_ok(final(self).base(), binding, (meaning->Ok_0)[name@])
                        },
                        Err(LowerError::Text(text)) => meaning == Err::<
                            Map<Seq<char>, Den>,
                            Seq<char>,
                        >(text@),
                        Err(LowerError::Full) => final(self).full(),
                    }
                },
        decreases *pair, 2nat,
    {
        let ghost d0 = *self;
        let ghost funs = self.decls@;
        proof {
            self.lemma_grows_refl();
        }
        match pair {
            SExpr::Atom(_) => Err(text_error("let binding must be a pair")),
            SExpr::List(items) => {
                if items.len() != 2 {
                    return Err(text_error("let binding must be `(name value)`"));
                }
                match &items[0] {
                    SExpr::List(_) => Err(text_error("let binding must be `(name value)`")),
                    SExpr::Atom(name) => {
                        proof {
                            assert(decreases_to!(pair->List_0 => pair->List_0[1]));
                        }
                        match self.is_boolean_expr(&items[1], Ghost(env)) {
                            Err(error) => Err(error),
                            Ok(true) => {
                                let ghost d1 = *self;
                                proof {
                                    d0.lemma_step(&d0, &d1, env);
                                }
                                let result = self.lower_formula(&items[1], Ghost(env));
                                proof {
                                    d0.lemma_step(&d1, self, env);
                                }
                                match result {
                                    Err(error) => Err(error),
                                    Ok(view) => {
                                        proof {
                                            let p = formula(funs, env, items@[1].form())->Ok_0;
                                            assert forall|bindings: Seq<Form>, n: nat|
                                                0 < n <= bindings.len() && bindings[n - 1]
                                                    == pair.form() && let_scope(
                                                    funs,
                                                    env,
                                                    bindings,
                                                    (n - 1) as nat,
                                                ) is Ok implies ({
                                                let rest = let_scope(
                                                    funs,
                                                    env,
                                                    bindings,
                                                    (n - 1) as nat,
                                                )->Ok_0;
                                                #[trigger] let_scope(funs, env, bindings, n) == Ok::<
                                                    Map<Seq<char>, Den>,
                                                    Seq<char>,
                                                >(rest.insert(name@, Den::Bool(p)))
                                            }) by {}
                                        }
                                        Ok((text_copy(name), LocalBinding::Bool(view)))
                                    },
                                }
                            },
                            Ok(false) => {
                                let ghost d1 = *self;
                                proof {
                                    d0.lemma_step(&d0, &d1, env);
                                }
                                let result = self.lower_term(&items[1], Ghost(env));
                                proof {
                                    d0.lemma_step(&d1, self, env);
                                }
                                match result {
                                    Err(error) => Err(error),
                                    Ok(t) => {
                                        let sort = self.euf.term_sort(t);
                                        proof {
                                            let (sv, val) = term(funs, env, items@[1].form())->Ok_0;
                                            assert forall|bindings: Seq<Form>, n: nat|
                                                0 < n <= bindings.len() && bindings[n - 1]
                                                    == pair.form() && let_scope(
                                                    funs,
                                                    env,
                                                    bindings,
                                                    (n - 1) as nat,
                                                ) is Ok implies ({
                                                let rest = let_scope(
                                                    funs,
                                                    env,
                                                    bindings,
                                                    (n - 1) as nat,
                                                )->Ok_0;
                                                #[trigger] let_scope(funs, env, bindings, n) == Ok::<
                                                    Map<Seq<char>, Den>,
                                                    Seq<char>,
                                                >(rest.insert(name@, Den::Term { sort: sv, val }))
                                            }) by {}
                                        }
                                        Ok((text_copy(name), LocalBinding::Term { term: t, sort }))
                                    },
                                }
                            },
                        }
                    },
                }
            },
        }
    }

    /// Lowers one expression in term position and takes it as a formula.
    fn term_formula(&mut self, expr: &SExpr, Ghost(env): Ghost<Env>) -> (result: Result<
        BoolView,
        LowerError,
    >)
        requires
            old(self).wf(),
            old(self).env_ok(env),
        ensures
            final(self).used() <= old(self).used() + work(expr.form()),
            lowered(
                old(self),
                final(self),
                result,
                term_as_formula(term(old(self).decls@, env, expr.form())),
            ),
        decreases *expr, 6nat,
    {
        let ghost d0 = *self;
        proof {
            lemma_work_positive(expr.form());
            lemma_words();
        }
        match self.lower_term(expr, Ghost(env)) {
            Err(error) => Err(error),
            Ok(t) => {
                let ghost (sv, val) = term(d0.decls@, env, expr.form())->Ok_0;
                let ghost d1 = *self;
                if self.euf.term_sort(t) != self.bool_sort {
                    proof {
                        self.lemma_sort_ids(t);
                    }
                    return Err(text_error("non-Boolean term used as formula"));
                }
                match self.bool_term_literal(t, Ghost(val)) {
                    Err(error) => {
                        proof {
                            d0.lemma_step(&d1, self, env);
                        }
                        Err(error)
                    },
                    Ok(lit) => {
                        proof {
                            d0.lemma_step(&d1, self, env);
                        }
                        Ok(BoolView::Lit(lit))
                    },
                }
            },
        }
    }

    /// A term has sort Bool exactly when its sort handle is the Boolean one.
    proof fn lemma_sort_ids(&self, t: TermId)
        requires
            self.wf(),
            t.0 < self.base().reg.terms.len(),
        ensures
            self.base().sort(t.0 as int) == SortView::Bool <==> self.base().reg.term_sorts[t.0 as int]
                == self.bool_sort,
            self.base().reg.term_sorts[t.0 as int].0 < self.base().reg.sorts.len(),
    {
        let reg = self.base().reg;
        assert(reg.term_sorts[t.0 as int].0 < reg.sorts.len());
        if self.base().sort(t.0 as int) == SortView::Bool {
            assert(reg.sorts[reg.term_sorts[t.0 as int].0 as int]
                == reg.sorts[self.bool_sort.0 as int]);
        }
    }

    /// Lowers one formula-position expression into a Boolean view.
    pub fn lower_formula(&mut self, expr: &SExpr, Ghost(env): Ghost<Env>) -> (result: Result<
        BoolView,
        LowerError,
    >)
        requires
            old(self).wf(),
            old(self).env_ok(env),
        ensures
            final(self).used() <= old(self).used() + work(expr.form()),
            lowered(old(self), final(self), result, formula(old(self).decls@, env, expr.form())),
        decreases *expr, 7nat,
    {
        let ghost d0 = *self;
        proof {
            lemma_work_positive(expr.form());
            lemma_words();
        }
        let ghost funs = self.decls@;
        let ghost meaning = formula(funs, env, expr.form());
        proof {
            self.lemma_grows_refl();
        }
        match expr {
            SExpr::Atom(atom) => {
                if same_text(atom.as_str(), "true") {
                    proof {
                        lemma_view_constant(self.base(), BoolView::True, meaning->Ok_0);
                    }
                    return Ok(BoolView::True);
                }
                if same_text(atom.as_str(), "false") {
                    proof {
                        lemma_view_constant(self.base(), BoolView::False, meaning->Ok_0);
                    }
                    return Ok(BoolView::False);
                }
                match self.lookup_local_binding(atom.as_str(), Ghost(env)) {
                    Some(LocalBinding::Bool(view)) => Ok(view),
                    Some(LocalBinding::Term { term: t, sort }) => {
                        let ghost den = lookup(env, atom@)->0;
                        proof {
                            self.lemma_sort_ids(t);
                        }
                        if sort != self.bool_sort {
                            return Err(text_error("non-Boolean term used as formula"));
                        }
                        match self.bool_term_literal(t, Ghost(den->val)) {
                            Err(error) => Err(error),
                            Ok(lit) => Ok(BoolView::Lit(lit)),
                        }
                    },
                    None => self.term_formula(expr, Ghost(env)),
                }
            },
            SExpr::List(items) => {
                let ghost fs = forms(*items);
                if head_is(items, "let") {
                    if items.len() == 3 {
                        if let SExpr::List(list) = &items[1] {
                            let ghost bs = forms(*list);
                            let ghost den = let_scope(funs, env, bs, bs.len())->Ok_0;
                            proof {
                                assert(fs[1] == Form::List(bs));
                                assert(fs[2] == items@[2].form());
                                assert(decreases_to!(expr->List_0 => expr->List_0[1]));
                                assert(decreases_to!(expr->List_0 => expr->List_0[2]));
                            }
                            match self.lower_let_bindings(&items[1], Ghost(env)) {
                                Err(error) => return Err(error),
                                Ok(scope) => {
                                    let ghost d1 = *self;
                                    proof {
                                        d0.lemma_step(&d0, &d1, env);
                                    }
                                    self.push_let_scope(scope, Ghost(env), Ghost(den));
                                    let ghost d2 = *self;
                                    let result = self.lower_formula(
                                        &items[2],
                                        Ghost(env.push(den)),
                                    );
                                    let ghost d3 = *self;
                                    self.pop_let_scope();
                                    proof {
                                        lemma_nested(&d1, &d2, &d3, self);
                                        d0.lemma_step(&d1, self, env);
                                    }
                                    return result;
                                },
                            }
                        }
                    }
                    return Err(text_error("malformed let"));
                }
                if head_is(items, "ite") {
                    if items.len() == 4 {
                        return self.lower_bool_ite(expr, Ghost(env));
                    }
                    return Err(text_error("`ite` expects exactly three arguments"));
                }
                if head_is_connective(items) {
                    return self.lower_connective(expr, Ghost(env));
                }
                self.term_formula(expr, Ghost(env))
            },
        }
    }

    /// Lowers one Boolean-valued `ite`.
    fn lower_bool_ite(&mut self, expr: &SExpr, Ghost(env): Ghost<Env>) -> (result: Result<
        BoolView,
        LowerError,
    >)
        requires
            old(self).wf(),
            old(self).env_ok(env),
            *expr is List,
            (expr->List_0)@.len() == 4,
            head_of(forms(expr->List_0)) == Some("ite"@),
            head_of(forms(expr->List_0)) != Some("let"@),
        ensures
            final(self).used() <= old(self).used() + work(expr.form()),
            lowered(old(self), final(self), result, formula(old(self).decls@, env, expr.form())),
        decreases *expr, 2nat,
    {
        let ghost d0 = *self;
        proof {
            lemma_work_positive(expr.form());
            lemma_words();
        }
        let ghost funs = self.decls@;
        let ghost meaning = formula(funs, env, expr.form());
        match expr {
            SExpr::Atom(_) => Err(LowerError::Full),
            SExpr::List(items) => {
                let ghost fs = forms(*items);
                proof {
                    assert(fs[1] == items@[1].form());
                    assert(fs[2] == items@[2].form());
                    assert(fs[3] == items@[3].form());
                    lemma_four_work(fs);
                    assert(decreases_to!(expr->List_0 => expr->List_0[1]));
                    assert(decreases_to!(expr->List_0 => expr->List_0[2]));
                    assert(decreases_to!(expr->List_0 => expr->List_0[3]));
                }
                let ghost cp = formula(funs, env, fs[1])->Ok_0;
                let ghost tp = formula(funs, env, fs[2])->Ok_0;
                let ghost ep = formula(funs, env, fs[3])->Ok_0;
                let cond = match self.lower_formula(&items[1], Ghost(env)) {
                    Err(error) => return Err(error),
                    Ok(view) => view,
                };
                let ghost d1 = *self;
                proof {
                    d0.lemma_step(&d0, &d1, env);
                }
                let then_branch = match self.lower_formula(&items[2], Ghost(env)) {
                    Err(error) => {
                        proof {
                            d0.lemma_step(&d1, self, env);
                        }
                        return Err(error);
                    },
                    Ok(view) => view,
                };
                let ghost d2 = *self;
                proof {
                    d0.lemma_step(&d1, &d2, env);
                    d1.lemma_view_grow(&d2, cond, cp);
                }
                let else_branch = match self.lower_formula(&items[3], Ghost(env)) {
                    Err(error) => {
                        proof {
                            d0.lemma_step(&d2, self, env);
                        }
                        return Err(error);
                    },
                    Ok(view) => view,
                };
                let ghost d3 = *self;
                let ghost p = meaning->Ok_0;
                proof {
                    d0.lemma_step(&d2, &d3, env);
                    d2.lemma_view_grow(&d3, cond, cp);
                    d2.lemma_view_grow(&d3, then_branch, tp);
                    assert(forall|s: Structure| #[trigger]
                        p(s) == if cp(s) {
                            tp(s)
                        } else {
                            ep(s)
                        });
                }
                let result = self.choice_view(
                    cond,
                    then_branch,
                    else_branch,
                    Ghost(cp),
                    Ghost(tp),
                    Ghost(ep),
                    Ghost(p),
                );
                proof {
                    d0.lemma_step(&d3, self, env);
                }
                result
            },
        }
    }

    /// Returns one view that chooses between two views.
    fn choice_view(
        &mut self,
        cond: BoolView,
        then_branch: BoolView,
        else_branch: BoolView,
        Ghost(c): Ghost<Prop>,
        Ghost(t): Ghost<Prop>,
        Ghost(e): Ghost<Prop>,
        Ghost(p): Ghost<Prop>,
    ) -> (result: Result<BoolView, LowerError>)
        requires
            old(self).wf(),
            view_denotes(old(self).base(), cond, c),
            view_denotes(old(self).base(), then_branch, t),
            view_denotes(old(self).base(), else_branch, e),
            forall|s: Structure| #[trigger]
                p(s) == if c(s) {
                    t(s)
                } else {
                    e(s)
                },
        ensures
            final(self).used() <= old(self).used() + 48,
            lowered(old(self), final(self), result, Ok(p)),
    {
        let ghost d0 = *self;
        proof {
            self.lemma_grows_refl();
            lemma_choice_plain(self.base(), c, t, e, p);
        }
        match cond {
            BoolView::True => {
                proof {
                    lemma_choice_denotes(self.base(), cond, then_branch, else_branch, then_branch, c, t, e, p);
                }
                Ok(then_branch)
            },
            BoolView::False => {
                proof {
                    lemma_choice_denotes(self.base(), cond, then_branch, else_branch, else_branch, c, t, e, p);
                }
                Ok(else_branch)
            },
            BoolView::Lit(_) => {
                if then_branch == else_branch {
                    proof {
                        lemma_choice_denotes(self.base(), cond, then_branch, else_branch, then_branch, c, t, e, p);
                    }
                    return Ok(then_branch);
                }
                let ghost nc = |s: Structure| !c(s);
                let not_cond = negate_view(cond);
                let mut pair: Vec<BoolView> = Vec::new();
                pair.push(cond);
                pair.push(then_branch);
                let ghost ps = seq![c, t];
                proof {
                    assert(views_denote(d0.base(), pair@, ps));
                    lemma_view_negated(d0.base(), cond, c, nc);
                }
                let when_true = match self.lower_and_from_views(&pair, Ghost(ps)) {
                    Err(error) => return Err(error),
                    Ok(view) => view,
                };
                let ghost d1 = *self;
                let mut other: Vec<BoolView> = Vec::new();
                other.push(not_cond);
                other.push(else_branch);
                let ghost qs = seq![nc, e];
                proof {
                    d0.lemma_view_grow(&d1, not_cond, nc);
                    d0.lemma_view_grow(&d1, else_branch, e);
                    assert(views_denote(d1.base(), other@, qs));
                }
                let when_false = match self.lower_and_from_views(&other, Ghost(qs)) {
                    Err(error) => {
                        proof {
                            d0.lemma_grows_trans(&d1, self);
                        }
                        return Err(error);
                    },
                    Ok(view) => view,
                };
                let ghost d2 = *self;
                let mut both: Vec<BoolView> = Vec::new();
                both.push(when_true);
                both.push(when_false);
                let ghost rs = seq![all_of(ps), all_of(qs)];
                proof {
                    d0.lemma_grows_trans(&d1, &d2);
                    d1.lemma_view_grow(&d2, when_true, all_of(ps));
                    assert(views_denote(d2.base(), both@, rs));
                }
                let result = self.lower_or_from_views(&both, Ghost(rs));
                proof {
                    d0.lemma_grows_trans(&d2, self);
                    if let Ok(view) = result {
                        assert forall|s: Structure| #[trigger] any_of(rs)(s) == p(s) by {
                            lemma_choice_props(c, t, nc, e, s);
                            assert(p(s) == if c(s) {
                                t(s)
                            } else {
                                e(s)
                            });
                        }
                        lemma_view_same(self.base(), view, any_of(rs), p);
                    }
                }
                result
            },
        }
    }

    /// Lowers one application of a connective.
    fn lower_connective(&mut self, expr: &SExpr, Ghost(env): Ghost<Env>) -> (result: Result<
        BoolView,
        LowerError,
    >)
        requires
            old(self).wf(),
            old(self).env_ok(env),
            *expr is List,
            head_of(forms(expr->List_0)) is Some,
            is_connective(head_of(forms(expr->List_0))->0),
        ensures
            final(self).used() <= old(self).used() + work(expr.form()) - 64,
            lowered(old(self), final(self), result, connective(old(self).decls@, env, expr.form())),
        decreases *expr, 4nat,
    {
        let ghost d0 = *self;
        proof {
            lemma_work_positive(expr.form());
            lemma_words();
        }
        let ghost funs = self.decls@;
        let ghost meaning = connective(funs, env, expr.form());
        proof {
            self.lemma_grows_refl();
        }
        match expr {
            SExpr::Atom(_) => Err(LowerError::Full),
            SExpr::List(items) => {
                let ghost fs = forms(*items);
                proof {
                    if items@.len() > 1 {
                        lemma_one_work(fs, 1);
                        assert(fs[1] == items@[1].form());
                        assert(decreases_to!(expr->List_0 => expr->List_0[1]));
                    }
                    if items@.len() > 2 {
                        lemma_two_work(fs, 1, 2);
                    }
                }
                if head_is(items, "not") {
                    if items.len() != 2 {
                        return Err(text_error("`not` expects exactly one argument"));
                    }
                    return match self.lower_formula(&items[1], Ghost(env)) {
                        Err(error) => Err(error),
                        Ok(view) => {
                            proof {
                                lemma_view_negated(
                                    self.base(),
                                    view,
                                    formula(funs, env, fs[1])->Ok_0,
                                    meaning->Ok_0,
                                );
                            }
                            Ok(negate_view(view))
                        },
                    };
                }
                if head_is(items, "and") {
                    return self.lower_nary_and(expr, Ghost(env));
                }
                if head_is(items, "or") {
                    return self.lower_nary_or(expr, Ghost(env));
                }
                if head_is(items, "distinct") {
                    return self.lower_distinct_formula(expr, Ghost(env));
                }
                if head_is(items, "=>") {
                    if items.len() != 3 {
                        return Err(text_error("`=>` expects exactly two arguments"));
                    }
                    let (lhs, rhs) = match self.lower_two_formulas(expr, 1, 2, Ghost(env)) {
                        Err(error) => return Err(error),
                        Ok(views) => views,
                    };
                    let ghost d1 = *self;
                    let ghost p = formula(funs, env, fs[1])->Ok_0;
                    let ghost q = formula(funs, env, fs[2])->Ok_0;
                    let ghost np = |s: Structure| !p(s);
                    let ghost ps = seq![np, q];
                    let mut views: Vec<BoolView> = Vec::new();
                    views.push(negate_view(lhs));
                    views.push(rhs);
                    proof {
                        lemma_view_negated(self.base(), lhs, p, np);
                        assert(views_denote(self.base(), views@, ps));
                    }
                    let result = self.lower_or_from_views(&views, Ghost(ps));
                    proof {
                        d0.lemma_step(&d1, self, env);
                        if let Ok(view) = result {
                            let r = meaning->Ok_0;
                            assert forall|s: Structure| #[trigger] any_of(ps)(s) == r(s) by {
                                lemma_any_two(np, q, s);
                                assert(r(s) == (p(s) ==> q(s)));
                            }
                            lemma_view_same(self.base(), view, any_of(ps), r);
                        }
                    }
                    return result;
                }
                if head_is(items, "xor") {
                    if items.len() != 3 {
                        return Err(text_error("`xor` expects exactly two arguments"));
                    }
                    let (lhs, rhs) = match self.lower_two_formulas(expr, 1, 2, Ghost(env)) {
                        Err(error) => return Err(error),
                        Ok(views) => views,
                    };
                    let ghost d1 = *self;
                    let ghost p = formula(funs, env, fs[1])->Ok_0;
                    let ghost q = formula(funs, env, fs[2])->Ok_0;
                    let result = self.lower_xor(lhs, rhs, Ghost(p), Ghost(q));
                    proof {
                        d0.lemma_step(&d1, self, env);
                        if let Ok(view) = result {
                            let r = meaning->Ok_0;
                            lemma_view_same(
                                self.base(),
                                view,
                                (|s: Structure| p(s) != q(s)),
                                r,
                            );
                        }
                    }
                    return result;
                }
                if items.len() != 3 {
                    return Err(text_error("`=` expects exactly two arguments"));
                }
                self.lower_equality_formula(expr, 1, 2, Ghost(env))
            },
        }
    }

    /// Lowers two items of a list, one after the other.
    fn lower_two_formulas(&mut self, expr: &SExpr, i: usize, j: usize, Ghost(env): Ghost<Env>) -> (
        result: Result<(BoolView, BoolView), LowerError>)
        requires
            old(self).wf(),
            old(self).env_ok(env),
            *expr is List,
            i < (expr->List_0)@.len(),
            j < (expr->List_0)@.len(),
        ensures
            final(self).used() <= old(self).used() + work(forms(expr->List_0)[i as int])
                + work(forms(expr->List_0)[j as int]),
            final(self).wf(),
            old(self).grows_to(final(self)),
            ({
                let first = formula(old(self).decls@, env, forms(expr->List_0)[i as int]);
                let second = formula(old(self).decls@, env, forms(expr->List_0)[j as int]);
                match result {
                    Ok((lhs, rhs)) => {
                        &&& first is Ok
                        &&& second is Ok
                        &&& view_denotes(final(self).base(), lhs, first->Ok_0)
                        &&& view_denotes(final(self).base(), rhs, second->Ok_0)
                    },
                    Err(LowerError::Text(text)) => first == Err::<Prop, Seq<char>>(text@)
                        || first is Ok && second == Err::<Prop, Seq<char>>(text@),
                    Err(LowerError::Full) => final(self).full(),
                }
            }),
        decreases *expr, 0nat,
    {
        let ghost d0 = *self;
        match expr {
            SExpr::Atom(_) => Err(LowerError::Full),
            SExpr::List(items) => {
                proof {
                    assert(decreases_to!(expr->List_0 => expr->List_0[i as int]));
                    assert(decreases_to!(expr->List_0 => expr->List_0[j as int]));
                }
                let lhs = match self.lower_formula(&items[i], Ghost(env)) {
                    Err(error) => return Err(error),
                    Ok(view) => view,
                };
                let ghost d1 = *self;
                proof {
                    d0.lemma_step(&d0, &d1, env);
                }
                let result = self.lower_formula(&items[j], Ghost(env));
                proof {
                    d0.lemma_step(&d1, self, env);
                    d1.lemma_view_grow(
                        self,
                        lhs,
                        formula(d0.decls@, env, forms(*items)[i as int])->Ok_0,
                    );
                }
                match result {
                    Err(error) => Err(error),
                    Ok(rhs) => Ok((lhs, rhs)),
                }
            },
        }
    }

    /// Lowers the items of a list after its head.
    fn lower_views(&mut self, expr: &SExpr, Ghost(env): Ghost<Env>) -> (result: Result<
        Vec<BoolView>,
        LowerError,
    >)
        requires
            old(self).wf(),
            old(self).env_ok(env),
            *expr is List,
            (expr->List_0)@.len() > 0,
        ensures
            final(self).used() <= old(self).used() + total_work(
                forms(expr->List_0),
                forms(expr->List_0).len(),
            ),
            final(self).wf(),
            old(self).grows_to(final(self)),
            ({
                let fs = forms(expr->List_0);
                let meaning = formulas(old(self).decls@, env, fs, fs.len());
                match result {
                    Ok(views) => meaning is Ok && views_denote(
                        final(self).base(),
                        views@,
                        meaning->Ok_0,
                    ),
                    Err(LowerError::Text(text)) => meaning == Err::<Seq<Prop>, Seq<char>>(text@),
                    Err(LowerError::Full) => final(self).full(),
                }
            }),
        decreases *expr, 0nat,
    {
        let ghost d0 = *self;
        let ghost funs = self.decls@;
        let mut views: Vec<BoolView> = Vec::new();
        proof {
            self.lemma_grows_refl();
        }
        if let SExpr::List(items) = expr {
            let ghost fs = forms(*items);
            let ghost mut ps: Seq<Prop> = Seq::empty();
            let mut i: usize = 1;
            while i < items.len()
                invariant
                    1 <= i <= items.len(),
                    *expr is List,
                    expr->List_0 == *items,
                    fs == forms(*items),
                    d0.wf(),
                    d0.env_ok(env),
                    self.wf(),
                    self.env_ok(env),
                    d0.grows_to(self),
                    d0 == *old(self),
                    funs == d0.decls@,
                    self.used() <= d0.used() + total_work(fs, i as nat),
                    formulas(funs, env, fs, i as nat) == Ok::<Seq<Prop>, Seq<char>>(ps),
                    views_denote(self.base(), views@, ps),
                decreases items.len() - i,
            {
                let ghost d1 = *self;
                proof {
                    assert(fs[i as int] == items@[i as int].form());
                    assert(decreases_to!(expr->List_0 => expr->List_0[i as int]));
                }
                match self.lower_formula(&items[i], Ghost(env)) {
                    Err(error) => {
                        proof {
                            d0.lemma_step(&d1, self, env);
                            lemma_total_grows(fs, (i + 1) as nat, fs.len());
                            if error is Text {
                                lemma_formulas_err(funs, env, fs, (i + 1) as nat, fs.len());
                            }
                        }
                        return Err(error);
                    },
                    Ok(view) => {
                        let ghost p = formula(funs, env, fs[i as int])->Ok_0;
                        proof {
                            d0.lemma_step(&d1, self, env);
                            lemma_views_grow(&d1, self, views@, ps);
                            assert(views_denote(self.base(), views@.push(view), ps.push(p)));
                            ps = ps.push(p);
                        }
                        views.push(view);
                    },
                }
                i += 1;
            }
        }
        Ok(views)
    }

    /// Lowers one n-ary conjunction.
    fn lower_nary_and(&mut self, expr: &SExpr, Ghost(env): Ghost<Env>) -> (result: Result<
        BoolView,
        LowerError,
    >)
        requires
            old(self).wf(),
            old(self).env_ok(env),
            *expr is List,
            head_of(forms(expr->List_0)) == Some("and"@),
            head_of(forms(expr->List_0)) != Some("not"@),
        ensures
            final(self).used() <= old(self).used() + work(expr.form()) - 64,
            lowered(old(self), final(self), result, connective(old(self).decls@, env, expr.form())),
        decreases *expr, 2nat,
    {
        let ghost d0 = *self;
        proof {
            lemma_work_positive(expr.form());
            lemma_words();
        }
        let ghost fs = forms(expr->List_0);
        proof {
            lemma_list_form(expr->List_0);
        }
        let views = match self.lower_views(expr, Ghost(env)) {
            Err(error) => return Err(error),
            Ok(views) => views,
        };
        let ghost d1 = *self;
        let ghost ps = formulas(d0.decls@, env, fs, fs.len())->Ok_0;
        let result = self.lower_and_from_views(&views, Ghost(ps));
        proof {
            d0.lemma_step(&d1, self, env);
        }
        result
    }

    /// Lowers one n-ary disjunction.
    fn lower_nary_or(&mut self, expr: &SExpr, Ghost(env): Ghost<Env>) -> (result: Result<
        BoolView,
        LowerError,
    >)
        requires
            old(self).wf(),
            old(self).env_ok(env),
            *expr is List,
            head_of(forms(expr->List_0)) == Some("or"@),
            head_of(forms(expr->List_0)) != Some("not"@),
            head_of(forms(expr->List_0)) != Some("and"@),
        ensures
            final(self).used() <= old(self).used() + work(expr.form()) - 64,
            lowered(old(self), final(self), result, connective(old(self).decls@, env, expr.form())),
        decreases *expr, 2nat,
    {
        let ghost d0 = *self;
        proof {
            lemma_work_positive(expr.form());
            lemma_words();
        }
        let ghost fs = forms(expr->List_0);
        proof {
            lemma_list_form(expr->List_0);
        }
        let views = match self.lower_views(expr, Ghost(env)) {
            Err(error) => return Err(error),
            Ok(views) => views,
        };
        let ghost d1 = *self;
        let ghost ps = formulas(d0.decls@, env, fs, fs.len())->Ok_0;
        let result = self.lower_or_from_views(&views, Ghost(ps));
        proof {
            d0.lemma_step(&d1, self, env);
        }
        result
    }

    /// Lowers the equality of two items of a list.
    fn lower_equality_formula(
        &mut self,
        expr: &SExpr,
        i: usize,
        j: usize,
        Ghost(env): Ghost<Env>,
    ) -> (result: Result<BoolView, LowerError>)
        requires
            old(self).wf(),
            old(self).env_ok(env),
            *expr is List,
            i < (expr->List_0)@.len(),
            j < (expr->List_0)@.len(),
        ensures
            final(self).used() <= old(self).used() + 2 * (work(
                forms(expr->List_0)[i as int],
            ) + work(forms(expr->List_0)[j as int])) + 16,
            lowered(
                old(self),
                final(self),
                result,
                equality(old(self).decls@, env, forms(expr->List_0), i as int, j as int),
            ),
        decreases *expr, 1nat,
    {
        let ghost d0 = *self;
        let ghost funs = self.decls@;
        match expr {
            SExpr::Atom(_) => Err(LowerError::Full),
            SExpr::List(items) => {
                let ghost fs = forms(*items);
                let ghost meaning = equality(funs, env, fs, i as int, j as int);
                proof {
                    assert(fs[i as int] == items@[i as int].form());
                    assert(fs[j as int] == items@[j as int].form());
                    assert(decreases_to!(expr->List_0 => expr->List_0[i as int]));
                    assert(decreases_to!(expr->List_0 => expr->List_0[j as int]));
                }
                let mut boolean = match self.is_boolean_expr(&items[i], Ghost(env)) {
                    Err(error) => return Err(error),
                    Ok(answer) => answer,
                };
                let ghost d1 = *self;
                proof {
                    d0.lemma_step(&d0, &d1, env);
                }
                if !boolean {
                    boolean = match self.is_boolean_expr(&items[j], Ghost(env)) {
                        Err(error) => {
                            proof {
                                d0.lemma_step(&d1, self, env);
                            }
                            return Err(error);
                        },
                        Ok(answer) => answer,
                    };
                }
                let ghost d2 = *self;
                proof {
                    d1.lemma_grows_refl();
                    d0.lemma_step(&d1, &d2, env);
                    assert(either_boolean(funs, env, fs, i as int, j as int) == Ok::<
                        bool,
                        Seq<char>,
                    >(boolean));
                }
                if boolean {
                    let (lhs, rhs) = match self.lower_two_formulas(expr, i, j, Ghost(env)) {
                        Err(error) => {
                            proof {
                                d0.lemma_step(&d2, self, env);
                            }
                            return Err(error);
                        },
                        Ok(views) => views,
                    };
                    let ghost d3 = *self;
                    let ghost p = formula(funs, env, fs[i as int])->Ok_0;
                    let ghost q = formula(funs, env, fs[j as int])->Ok_0;
                    proof {
                        d0.lemma_step(&d2, &d3, env);
                    }
                    let result = self.lower_bool_equiv(lhs, rhs, Ghost(p), Ghost(q));
                    proof {
                        d0.lemma_step(&d3, self, env);
                        if let Ok(view) = result {
                            let r = meaning->Ok_0;
                            lemma_view_same(
                                self.base(),
                                view,
                                (|s: Structure| p(s) == q(s)),
                                r,
                            );
                        }
                    }
                    return result;
                }
                let lhs = match self.lower_term(&items[i], Ghost(env)) {
                    Err(error) => {
                        proof {
                            d0.lemma_step(&d2, self, env);
                        }
                        return Err(error);
                    },
                    Ok(t) => t,
                };
                let ghost d3 = *self;
                let ghost (ls, u) = term(funs, env, fs[i as int])->Ok_0;
                proof {
                    d0.lemma_step(&d2, &d3, env);
                }
                let rhs = match self.lower_term(&items[j], Ghost(env)) {
                    Err(error) => {
                        proof {
                            d0.lemma_step(&d3, self, env);
                        }
                        return Err(error);
                    },
                    Ok(t) => t,
                };
                let ghost d4 = *self;
                let ghost (rs, v) = term(funs, env, fs[j as int])->Ok_0;
                proof {
                    d0.lemma_step(&d3, &d4, env);
                    d3.base().lemma_term_grow(d4.base(), lhs, ls, u);
                }
                let result = self.term_equality(
                    lhs,
                    rhs,
                    Ghost(ls),
                    Ghost(u),
                    Ghost(rs),
                    Ghost(v),
                );
                proof {
                    d0.lemma_step(&d4, self, env);
                    if let Ok(view) = result {
                        let r = meaning->Ok_0;
                        lemma_view_same(self.base(), view, (|s: Structure| u(s) == v(s)), r);
                    }
                }
                result
            },
        }
    }

    /// Lowers the disequalities of one item with all later ones.
    fn lower_distinct_row(
        &mut self,
        expr: &SExpr,
        i: usize,
        views: &mut Vec<BoolView>,
        Ghost(ps): Ghost<Seq<Prop>>,
        Ghost(env): Ghost<Env>,
    ) -> (result: Result<(), LowerError>)
        requires
            old(self).wf(),
            old(self).env_ok(env),
            *expr is List,
            1 <= i < (expr->List_0)@.len(),
            views_denote(old(self).base(), old(views)@, ps),
        ensures
            final(self).used() <= old(self).used() + row_work(forms(expr->List_0)),
            final(self).wf(),
            old(self).grows_to(final(self)),
            ({
                let fs = forms(expr->List_0);
                let meaning = distinct_row(old(self).decls@, env, fs, i as nat, fs.len());
                match result {
                    Ok(_) => meaning is Ok && views_denote(
                        final(self).base(),
                        final(views)@,
                        ps + meaning->Ok_0,
                    ),
                    Err(LowerError::Text(text)) => meaning == Err::<Seq<Prop>, Seq<char>>(text@),
                    Err(LowerError::Full) => final(self).full(),
                }
            }),
        decreases *expr, 2nat,
    {
        let ghost d0 = *self;
        let ghost funs = self.decls@;
        let ghost fs = forms(expr->List_0);
        let ghost n = fs.len();
        let ghost mut row: Seq<Prop> = Seq::empty();
        proof {
            self.lemma_grows_refl();
            assert(ps + row =~= ps);
        }
        if let SExpr::List(items) = expr {
            let count = items.len();
            proof {
                assert(i < count);
            }
            let mut j: usize = i + 1;
            while j < items.len()
                invariant
                    1 <= i < j <= items.len(),
                    *expr is List,
                    expr->List_0 == *items,
                    fs == forms(*items),
                    n == fs.len(),
                    d0.wf(),
                    d0.env_ok(env),
                    self.wf(),
                    self.env_ok(env),
                    d0.grows_to(self),
                    d0 == *old(self),
                    funs == d0.decls@,
                    self.used() <= d0.used() + (j - i - 1) * pair_work(fs),
                    distinct_row(funs, env, fs, i as nat, j as nat) == Ok::<Seq<Prop>, Seq<char>>(
                        row,
                    ),
                    views_denote(self.base(), views@, ps + row),
                decreases items.len() - j,
            {
                let ghost d1 = *self;
                proof {
                    lemma_two_work(fs, i as int, j as int);
                    lemma_row_work(fs, j - i);
                    lemma_row_work(fs, j - i - 1);
                    let p = pair_work(fs) as int;
                    let k = j - i - 1;
                    assert((k + 1) * p == k * p + p) by (nonlinear_arith);
                }
                match self.lower_equality_formula(expr, i, j, Ghost(env)) {
                    Err(error) => {
                        proof {
                            d0.lemma_step(&d1, self, env);
                            if error is Text {
                                lemma_row_err(funs, env, fs, i as nat, (j + 1) as nat, n);
                            }
                        }
                        return Err(error);
                    },
                    Ok(equal) => {
                        let view = negate_view(equal);
                        proof {
                            d0.lemma_step(&d1, self, env);
                            let p = equality(funs, env, fs, i as int, j as int)->Ok_0;
                            let next = distinct_row(funs, env, fs, i as nat, (j + 1) as nat);
                            let more = next->Ok_0;
                            assert(next is Ok);
                            assert(more.drop_last() =~= row);
                            let q = more.last();
                            assert(forall|s: Structure| #[trigger] q(s) == !p(s));
                            lemma_view_negated(self.base(), equal, p, q);
                            lemma_views_grow(&d1, self, views@, ps + row);
                            assert(ps + more =~= (ps + row).push(q));
                            row = more;
                        }
                        views.push(view);
                    },
                }
                j += 1;
            }
        }
        proof {
            lemma_row_work(fs, n - i - 1);
        }
        Ok(())
    }

    /// Lowers one n-ary `distinct` formula by expanding to pairwise disequalities.
    fn lower_distinct_formula(&mut self, expr: &SExpr, Ghost(env): Ghost<Env>) -> (result: Result<
        BoolView,
        LowerError,
    >)
        requires
            old(self).wf(),
            old(self).env_ok(env),
            *expr is List,
            head_of(forms(expr->List_0)) == Some("distinct"@),
            head_of(forms(expr->List_0)) != Some("not"@),
            head_of(forms(expr->List_0)) != Some("and"@),
            head_of(forms(expr->List_0)) != Some("or"@),
        ensures
            final(self).used() <= old(self).used() + work(expr.form()) - 64,
            lowered(old(self), final(self), result, connective(old(self).decls@, env, expr.form())),
        decreases *expr, 3nat,
    {
        let ghost d0 = *self;
        proof {
            lemma_work_positive(expr.form());
            lemma_words();
        }
        let ghost funs = self.decls@;
        let ghost fs = forms(expr->List_0);
        let ghost meaning = connective(funs, env, expr.form());
        proof {
            self.lemma_grows_refl();
        }
        match expr {
            SExpr::Atom(_) => Err(LowerError::Full),
            SExpr::List(items) => {
                if items.len() <= 2 {
                    proof {
                        lemma_view_constant(self.base(), BoolView::True, meaning->Ok_0);
                    }
                    return Ok(BoolView::True);
                }
                let mut views: Vec<BoolView> = Vec::new();
                let ghost mut ps: Seq<Prop> = Seq::empty();
                let mut i: usize = 1;
                while i < items.len() - 1
                    invariant
                        1 <= i <= items.len() - 1,
                        *expr is List,
                        expr->List_0 == *items,
                        fs == forms(*items),
                        d0.wf(),
                        d0.env_ok(env),
                        self.wf(),
                        self.env_ok(env),
                        d0.grows_to(self),
                        d0 == *old(self),
                        funs == d0.decls@,
                        meaning == connective(funs, env, expr.form()),
                        meaning == match distinct_pairs(funs, env, fs, (fs.len() - 1) as nat) {
                            Err(error) => Err::<Prop, Seq<char>>(error),
                            Ok(qs) => Ok(all_of(qs)),
                        },
                        self.used() <= d0.used() + (i - 1) * row_work(fs),
                        work(expr.form()) == 128 + 3 * fs.len() * fs.len() * total_work(
                            fs,
                            fs.len(),
                        ),
                        distinct_pairs(funs, env, fs, i as nat) == Ok::<Seq<Prop>, Seq<char>>(ps),
                        views_denote(self.base(), views@, ps),
                    decreases items.len() - i,
                {
                    let ghost d1 = *self;
                    proof {
                        lemma_distinct_work(fs, i as int);
                        let r = row_work(fs) as int;
                        let k = i - 1;
                        assert((k + 1) * r == k * r + r) by (nonlinear_arith);
                    }
                    let result = self.lower_distinct_row(
                        expr,
                        i,
                        &mut views,
                        Ghost(ps),
                        Ghost(env),
                    );
                    proof {
                        d0.lemma_step(&d1, self, env);
                    }
                    match result {
                        Err(error) => {
                            proof {
                                if error is Text {
                                    lemma_pairs_err(
                                        funs,
                                        env,
                                        fs,
                                        (i + 1) as nat,
                                        (fs.len() - 1) as nat,
                                    );
                                }
                            }
                            return Err(error);
                        },
                        Ok(_) => {
                            proof {
                                let row = distinct_row(funs, env, fs, i as nat, fs.len())->Ok_0;
                                ps = ps + row;
                            }
                        },
                    }
                    i += 1;
                }
                proof {
                    lemma_distinct_work(fs, i - 1);
                }
                let ghost d1 = *self;
                let result = self.lower_and_from_views(&views, Ghost(ps));
                proof {
                    d0.lemma_step(&d1, self, env);
                }
                result
            },
        }
    }

    /// Returns whether `expr` is known to denote a Boolean expression.
    pub fn is_boolean_expr(&mut self, expr: &SExpr, Ghost(env): Ghost<Env>) -> (result: Result<
        bool,
        LowerError,
    >)
        requires
            old(self).wf(),
            old(self).env_ok(env),
        ensures
            final(self).used() <= old(self).used() + work(expr.form()),
            decided(old(self), final(self), result, is_boolean(old(self).decls@, env, expr.form())),
        decreases *expr, 7nat,
    {
        let ghost d0 = *self;
        proof {
            lemma_work_positive(expr.form());
            lemma_words();
        }
        let ghost funs = self.decls@;
        proof {
            self.lemma_grows_refl();
        }
        match expr {
            SExpr::Atom(atom) => {
                if same_text(atom.as_str(), "true") || same_text(atom.as_str(), "false") {
                    return Ok(true);
                }
                match self.lookup_local_binding(atom.as_str(), Ghost(env)) {
                    Some(LocalBinding::Bool(_)) => Ok(true),
                    Some(LocalBinding::Term { term: t, sort }) => {
                        proof {
                            self.lemma_sort_ids(t);
                        }
                        Ok(sort == self.bool_sort)
                    },
                    None => Ok(false),
                }
            },
            SExpr::List(items) => {
                let ghost fs = forms(*items);
                if head_is_connective(items) {
                    return Ok(true);
                }
                if head_is(items, "let") {
                    if items.len() == 3 {
                        if let SExpr::List(list) = &items[1] {
                            let ghost bs = forms(*list);
                            let ghost den = let_scope(funs, env, bs, bs.len())->Ok_0;
                            proof {
                                assert(fs[1] == Form::List(bs));
                                assert(fs[2] == items@[2].form());
                                assert(decreases_to!(expr->List_0 => expr->List_0[1]));
                                assert(decreases_to!(expr->List_0 => expr->List_0[2]));
                            }
                            match self.lower_let_bindings(&items[1], Ghost(env)) {
                                Err(error) => return Err(error),
                                Ok(scope) => {
                                    let ghost d1 = *self;
                                    proof {
                                        d0.lemma_step(&d0, &d1, env);
                                    }
                                    self.push_let_scope(scope, Ghost(env), Ghost(den));
                                    let ghost d2 = *self;
                                    let result = self.is_boolean_expr(
                                        &items[2],
                                        Ghost(env.push(den)),
                                    );
                                    let ghost d3 = *self;
                                    self.pop_let_scope();
                                    proof {
                                        lemma_nested(&d1, &d2, &d3, self);
                                        d0.lemma_step(&d1, self, env);
                                    }
                                    return result;
                                },
                            }
                        }
                    }
                    return Err(text_error("malformed let"));
                }
                if head_is(items, "ite") {
                    if items.len() != 4 {
                        return Err(text_error("`ite` expects exactly three arguments"));
                    }
                    proof {
                        assert(fs[2] == items@[2].form());
                        assert(fs[3] == items@[3].form());
                        lemma_four_work(fs);
                        assert(decreases_to!(expr->List_0 => expr->List_0[2]));
                        assert(decreases_to!(expr->List_0 => expr->List_0[3]));
                    }
                    match self.is_boolean_expr(&items[2], Ghost(env)) {
                        Err(error) => return Err(error),
                        Ok(false) => return Ok(false),
                        Ok(true) => {},
                    }
                    let ghost d1 = *self;
                    proof {
                        d0.lemma_step(&d0, &d1, env);
                    }
                    let result = self.is_boolean_expr(&items[3], Ghost(env));
                    proof {
                        d0.lemma_step(&d1, self, env);
                    }
                    return result;
                }
                match self.lower_term(expr, Ghost(env)) {
                    Err(error) => Err(error),
                    Ok(t) => {
                        proof {
                            self.lemma_sort_ids(t);
                        }
                        Ok(self.euf.term_sort(t) == self.bool_sort)
                    },
                }
            },
        }
    }

    /// Lowers one term-position expression.
    pub fn lower_term(&mut self, expr: &SExpr, Ghost(env): Ghost<Env>) -> (result: Result<
        TermId,
        LowerError,
    >)
        requires
            old(self).wf(),
            old(self).env_ok(env),
        ensures
            final(self).used() <= old(self).used() + work(expr.form()) - 32,
            lowered_term(old(self), final(self), result, term(old(self).decls@, env, expr.form())),
        decreases *expr, 5nat,
    {
        let ghost d0 = *self;
        proof {
            lemma_work_positive(expr.form());
            lemma_words();
        }
        let ghost funs = self.decls@;
        let ghost meaning = term(funs, env, expr.form());
        proof {
            self.lemma_grows_refl();
        }
        match expr {
            SExpr::Atom(atom) => {
                if same_text(atom.as_str(), "true") {
                    proof {
                        self.lemma_constants_denote();
                        lemma_term_same(
                            self.base(),
                            self.true_term,
                            SortView::Bool,
                            (|s: Structure| crate::qfuf::denote::truth(s)),
                            (meaning->Ok_0).1,
                        );
                    }
                    return Ok(self.true_term);
                }
                if same_text(atom.as_str(), "false") {
                    proof {
                        self.lemma_constants_denote();
                        lemma_term_same(
                            self.base(),
                            self.false_term,
                            SortView::Bool,
                            (|s: Structure| crate::qfuf::denote::falsity(s)),
                            (meaning->Ok_0).1,
                        );
                    }
                    return Ok(self.false_term);
                }
                match self.lookup_local_binding(atom.as_str(), Ghost(env)) {
                    Some(LocalBinding::Bool(view)) => {
                        let ghost den = lookup(env, atom@)->0;
                        self.bool_view_term(view, Ghost(den->Bool_0))
                    },
                    Some(LocalBinding::Term { term: t, sort: _ }) => Ok(t),
                    None => self.lower_constant(atom, Ghost(env)),
                }
            },
            SExpr::List(items) => {
                let ghost fs = forms(*items);
                if head_is(items, "let") {
                    if items.len() == 3 {
                        if let SExpr::List(list) = &items[1] {
                            let ghost bs = forms(*list);
                            let ghost den = let_scope(funs, env, bs, bs.len())->Ok_0;
                            proof {
                                assert(fs[1] == Form::List(bs));
                                assert(fs[2] == items@[2].form());
                                assert(decreases_to!(expr->List_0 => expr->List_0[1]));
                                assert(decreases_to!(expr->List_0 => expr->List_0[2]));
                            }
                            match self.lower_let_bindings(&items[1], Ghost(env)) {
                                Err(error) => return Err(error),
                                Ok(scope) => {
                                    let ghost d1 = *self;
                                    proof {
                                        d0.lemma_step(&d0, &d1, env);
                                    }
                                    self.push_let_scope(scope, Ghost(env), Ghost(den));
                                    let ghost d2 = *self;
                                    let result = self.lower_term(&items[2], Ghost(env.push(den)));
                                    let ghost d3 = *self;
                                    self.pop_let_scope();
                                    proof {
                                        lemma_nested(&d1, &d2, &d3, self);
                                        d0.lemma_step(&d1, self, env);
                                    }
                                    return result;
                                },
                            }
                        }
                    }
                    return Err(text_error("malformed let"));
                }
                if head_is(items, "ite") {
                    if items.len() == 4 {
                        return self.lower_term_ite(expr, Ghost(env));
                    }
                    return Err(text_error("`ite` expects exactly three arguments"));
                }
                if head_is_connective(items) {
                    return match self.lower_connective(expr, Ghost(env)) {
                        Err(error) => Err(error),
                        Ok(view) => {
                            let ghost d1 = *self;
                            let ghost p = connective(funs, env, expr.form())->Ok_0;
                            let result = self.bool_view_term(view, Ghost(p));
                            proof {
                                d0.lemma_step(&d1, self, env);
                            }
                            result
                        },
                    };
                }
                self.lower_application(expr, Ghost(env))
            },
        }
    }

    /// Lowers one bare symbol that no scope binds.
    fn lower_constant(&mut self, atom: &String, Ghost(env): Ghost<Env>) -> (result: Result<
        TermId,
        LowerError,
    >)
        requires
            old(self).wf(),
            lookup(env, atom@) is None,
            atom@ != "true"@,
            atom@ != "false"@,
        ensures
            final(self).used() <= old(self).used() + 16,
            lowered_term(
                old(self),
                final(self),
                result,
                term(old(self).decls@, env, Form::Atom(atom@)),
            ),
    {
        let ghost d0 = *self;
        let ghost funs = self.decls@;
        proof {
            self.lemma_grows_refl();
        }
        let decl = match self.funs.get(atom.as_str()) {
            None => {
                proof {
                    assert(!self.funs@.dom().contains(atom@));
                    assert(!funs.contains_key(atom@));
                }
                return Err(unknown_symbol_error(atom.as_str()));
            },
            Some(decl) => *decl,
        };
        proof {
            assert(self.funs@.dom().contains(atom@));
            assert(funs.contains_key(atom@));
            assert(self.fun_ok(atom@));
        }
        if decl.arity != 0 {
            return Err(LowerError::Text(bare_symbol_text(atom.as_str(), decl.arity)));
        }
        proof {
            assert(self.base().reg.symbols[decl.symbol.0 as int].arg_sorts.len()
                == funs[atom@].args.len());
        }
        self.apply(decl.symbol, &[], decl.result_sort, Ghost(Seq::<Val>::empty()))
    }

    /// Returns whether the terms have the argument sorts of the symbol.
    fn argument_sorts_match(
        &self,
        symbol: SymbolId,
        args: &Vec<TermId>,
        Ghost(vals): Ghost<Seq<(SortView, Val)>>,
    ) -> (answer: bool)
        requires
            self.wf(),
            symbol.0 < self.base().reg.symbols.len(),
            args@.len() == self.base().reg.symbols[symbol.0 as int].arg_sorts.len(),
            vals.len() == args@.len(),
            forall|k: int|
                0 <= k < args@.len() ==> (#[trigger] args@[k]).0 < self.base().reg.terms.len()
                    && self.base().sort(args@[k].0 as int) == vals[k].0,
        ensures
            answer == (argument_sorts(vals) == sig_of(
                self.base().reg,
                self.base().reg.symbols[symbol.0 as int],
            ).args),
            answer ==> forall|k: int|
                0 <= k < args@.len() ==> self.base().reg.term_sorts[(#[trigger] args@[k]).0 as int]
                    == self.base().reg.symbols[symbol.0 as int].arg_sorts[k],
    {
        let sorts = self.euf.symbol_arg_sorts(symbol);
        let ghost reg = self.base().reg;
        let ghost declared = sig_of(reg, reg.symbols[symbol.0 as int]).args;
        proof {
            assert(self.base().symbol_ok(symbol.0 as int));
        }
        let mut k: usize = 0;
        while k < args.len()
            invariant
                0 <= k <= args.len(),
                self.wf(),
                reg == self.base().reg,
                symbol.0 < reg.symbols.len(),
                self.base().symbol_ok(symbol.0 as int),
                sorts@ == reg.symbols[symbol.0 as int].arg_sorts,
                args@.len() == sorts@.len(),
                vals.len() == args@.len(),
                declared == sig_of(reg, reg.symbols[symbol.0 as int]).args,
                forall|m: int|
                    0 <= m < args@.len() ==> (#[trigger] args@[m]).0 < reg.terms.len()
                        && self.base().sort(args@[m].0 as int) == vals[m].0,
                forall|m: int|
                    0 <= m < k ==> reg.term_sorts[(#[trigger] args@[m]).0 as int] == sorts@[m],
            decreases args.len() - k,
        {
            let t = args[k];
            proof {
                self.lemma_sort_ids(t);
            }
            if self.euf.term_sort(t) != sorts[k] {
                proof {
                    let x = reg.term_sorts[t.0 as int].0 as int;
                    let y = sorts@[k as int].0 as int;
                    assert(y < reg.sorts.len());
                    assert(reg.sorts[x] != reg.sorts[y]);
                    assert(argument_sorts(vals)[k as int] == vals[k as int].0);
                    assert(declared[k as int] == reg.sorts[y]);
                }
                return false;
            }
            k += 1;
        }
        proof {
            assert forall|m: int| 0 <= m < args@.len() implies argument_sorts(vals)[m]
                == declared[m] by {
                assert(reg.term_sorts[args@[m].0 as int] == sorts@[m]);
            }
            assert(argument_sorts(vals) =~= declared);
        }
        true
    }

    /// Lowers the arguments of an application.
    fn lower_arguments(&mut self, expr: &SExpr, Ghost(env): Ghost<Env>) -> (result: Result<
        Vec<TermId>,
        LowerError,
    >)
        requires
            old(self).wf(),
            old(self).env_ok(env),
            *expr is List,
            (expr->List_0)@.len() > 0,
        ensures
            final(self).used() <= old(self).used() + total_work(
                forms(expr->List_0),
                forms(expr->List_0).len(),
            ),
            final(self).wf(),
            old(self).grows_to(final(self)),
            ({
                let fs = forms(expr->List_0);
                let meaning = terms(old(self).decls@, env, fs, fs.len());
                match result {
                    Ok(args) => {
                        &&& meaning is Ok
                        &&& args@.len() == (meaning->Ok_0).len()
                        &&& args@.len() == fs.len() - 1
                        &&& forall|k: int|
                            0 <= k < args@.len() ==> final(self).base().term_denotes(
                                #[trigger] args@[k],
                                (meaning->Ok_0)[k].0,
                                (meaning->Ok_0)[k].1,
                            )
                    },
                    Err(LowerError::Text(text)) => meaning == Err::<
                        Seq<(SortView, Val)>,
                        Seq<char>,
                    >(text@),
                    Err(LowerError::Full) => final(self).full(),
                }
            }),
        decreases *expr, 0nat,
    {
        let ghost d0 = *self;
        let ghost funs = self.decls@;
        let mut args: Vec<TermId> = Vec::new();
        proof {
            self.lemma_grows_refl();
        }
        if let SExpr::List(items) = expr {
            let ghost fs = forms(*items);
            let ghost mut vals: Seq<(SortView, Val)> = Seq::empty();
            let mut i: usize = 1;
            while i < items.len()
                invariant
                    1 <= i <= items.len(),
                    *expr is List,
                    expr->List_0 == *items,
                    fs == forms(*items),
                    d0.wf(),
                    d0.env_ok(env),
                    self.wf(),
                    self.env_ok(env),
                    d0.grows_to(self),
                    d0 == *old(self),
                    funs == d0.decls@,
                    self.used() <= d0.used() + total_work(fs, i as nat),
                    terms(funs, env, fs, i as nat) == Ok::<Seq<(SortView, Val)>, Seq<char>>(vals),
                    vals.len() == args@.len(),
                    args@.len() == i - 1,
                    forall|k: int|
                        0 <= k < args@.len() ==> self.base().term_denotes(
                            #[trigger] args@[k],
                            vals[k].0,
                            vals[k].1,
                        ),
                decreases items.len() - i,
            {
                let ghost d1 = *self;
                proof {
                    assert(fs[i as int] == items@[i as int].form());
                    assert(decreases_to!(expr->List_0 => expr->List_0[i as int]));
                }
                match self.lower_term(&items[i], Ghost(env)) {
                    Err(error) => {
                        proof {
                            d0.lemma_step(&d1, self, env);
                            lemma_total_grows(fs, (i + 1) as nat, fs.len());
                            if error is Text {
                                lemma_terms_err(funs, env, fs, (i + 1) as nat, fs.len());
                            }
                        }
                        return Err(error);
                    },
                    Ok(t) => {
                        proof {
                            d0.lemma_step(&d1, self, env);
                            assert forall|k: int| 0 <= k < args@.len() implies self.base().term_denotes(
                                #[trigger] args@[k],
                                vals[k].0,
                                vals[k].1,
                            ) by {
                                d1.base().lemma_term_grow(self.base(), args@[k], vals[k].0, vals[k].1);
                            }
                            vals = vals.push(term(funs, env, fs[i as int])->Ok_0);
                        }
                        args.push(t);
                    },
                }
                i += 1;
            }
        }
        Ok(args)
    }

    /// Lowers one application of a declared symbol.
    fn lower_application(&mut self, expr: &SExpr, Ghost(env): Ghost<Env>) -> (result: Result<
        TermId,
        LowerError,
    >)
        requires
            old(self).wf(),
            old(self).env_ok(env),
            *expr is List,
            head_of(forms(expr->List_0)) != Some("let"@),
            head_of(forms(expr->List_0)) != Some("ite"@),
            head_of(forms(expr->List_0)) matches Some(head) ==> !is_connective(head),
        ensures
            final(self).used() <= old(self).used() + work(expr.form()) - 32,
            lowered_term(old(self), final(self), result, term(old(self).decls@, env, expr.form())),
        decreases *expr, 2nat,
    {
        let ghost d0 = *self;
        proof {
            lemma_work_positive(expr.form());
            lemma_words();
        }
        let ghost funs = self.decls@;
        proof {
            self.lemma_grows_refl();
        }
        match expr {
            SExpr::Atom(_) => Err(LowerError::Full),
            SExpr::List(items) => {
                let ghost fs = forms(*items);
                if items.len() == 0 {
                    return Err(text_error("application head must be an atom"));
                }
                match &items[0] {
                    SExpr::List(_) => Err(text_error("application head must be an atom")),
                    SExpr::Atom(head) => {
                        let decl = match self.funs.get(head.as_str()) {
                            None => {
                                proof {
                                    assert(!self.funs@.dom().contains(head@));
                                    assert(!funs.contains_key(head@));
                                }
                                return Err(unknown_symbol_error(head.as_str()));
                            },
                            Some(decl) => *decl,
                        };
                        proof {
                            assert(self.funs@.dom().contains(head@));
                            assert(funs.contains_key(head@));
                            assert(self.fun_ok(head@));
                        }
                        let actual_arity = items.len() - 1;
                        if actual_arity != decl.arity as usize {
                            return Err(
                                LowerError::Text(
                                    wrong_arity_text(head.as_str(), decl.arity, actual_arity),
                                ),
                            );
                        }
                        let args = match self.lower_arguments(expr, Ghost(env)) {
                            Err(error) => return Err(error),
                            Ok(args) => args,
                        };
                        let ghost d1 = *self;
                        let ghost vals = terms(funs, env, fs, fs.len())->Ok_0;
                        proof {
                            d0.lemma_step(&d0, &d1, env);
                            assert(d1.fun_ok(head@));
                            assert(d1.base().reg.symbols[decl.symbol.0 as int].arg_sorts.len()
                                == funs[head@].args.len());
                        }
                        if !self.argument_sorts_match(decl.symbol, &args, Ghost(vals)) {
                            return Err(
                                text_error(
                                    "term argument sort must match the declared symbol signature",
                                ),
                            );
                        }
                        proof {
                            assert forall|k: int| 0 <= k < args@.len() implies d1.base().term_denotes(
                                #[trigger] args@[k],
                                d1.base().sort(args@[k].0 as int),
                                argument_vals(vals)[k],
                            ) by {}
                        }
                        let result = self.apply(
                            decl.symbol,
                            args.as_slice(),
                            decl.result_sort,
                            Ghost(argument_vals(vals)),
                        );
                        proof {
                            d0.lemma_step(&d1, self, env);
                        }
                        result
                    },
                }
            },
        }
    }

    /// Lowers one term-valued `ite`, introducing one fresh constant where the chosen branch depends on
    /// the assignment.
    fn lower_term_ite(&mut self, expr: &SExpr, Ghost(env): Ghost<Env>) -> (result: Result<
        TermId,
        LowerError,
    >)
        requires
            old(self).wf(),
            old(self).env_ok(env),
            *expr is List,
            (expr->List_0)@.len() == 4,
            head_of(forms(expr->List_0)) == Some("ite"@),
            head_of(forms(expr->List_0)) != Some("let"@),
        ensures
            final(self).used() <= old(self).used() + work(expr.form()) - 32,
            lowered_term(old(self), final(self), result, term(old(self).decls@, env, expr.form())),
        decreases *expr, 2nat,
    {
        let ghost d0 = *self;
        proof {
            lemma_work_positive(expr.form());
            lemma_words();
        }
        let ghost funs = self.decls@;
        match expr {
            SExpr::Atom(_) => Err(LowerError::Full),
            SExpr::List(items) => {
                let ghost fs = forms(*items);
                proof {
                    assert(fs[1] == items@[1].form());
                    assert(fs[2] == items@[2].form());
                    assert(fs[3] == items@[3].form());
                    lemma_four_work(fs);
                    assert(decreases_to!(expr->List_0 => expr->List_0[1]));
                    assert(decreases_to!(expr->List_0 => expr->List_0[2]));
                    assert(decreases_to!(expr->List_0 => expr->List_0[3]));
                }
                let ghost c = formula(funs, env, fs[1])->Ok_0;
                let ghost (ls, u) = term(funs, env, fs[2])->Ok_0;
                let ghost (rs, v) = term(funs, env, fs[3])->Ok_0;
                let cond = match self.lower_formula(&items[1], Ghost(env)) {
                    Err(error) => return Err(error),
                    Ok(view) => view,
                };
                let ghost d1 = *self;
                proof {
                    d0.lemma_step(&d0, &d1, env);
                }
                let then_term = match self.lower_term(&items[2], Ghost(env)) {
                    Err(error) => {
                        proof {
                            d0.lemma_step(&d1, self, env);
                        }
                        return Err(error);
                    },
                    Ok(t) => t,
                };
                let ghost d2 = *self;
                proof {
                    d0.lemma_step(&d1, &d2, env);
                    d1.lemma_view_grow(&d2, cond, c);
                }
                let else_term = match self.lower_term(&items[3], Ghost(env)) {
                    Err(error) => {
                        proof {
                            d0.lemma_step(&d2, self, env);
                        }
                        return Err(error);
                    },
                    Ok(t) => t,
                };
                let ghost d3 = *self;
                proof {
                    d0.lemma_step(&d2, &d3, env);
                    d2.lemma_view_grow(&d3, cond, c);
                    d2.base().lemma_term_grow(d3.base(), then_term, ls, u);
                    d3.lemma_sort_ids(then_term);
                    d3.lemma_sort_ids(else_term);
                }
                let sort = self.euf.term_sort(then_term);
                if sort != self.euf.term_sort(else_term) {
                    proof {
                        let reg = d3.base().reg;
                        assert(reg.sorts[reg.term_sorts[then_term.0 as int].0 as int] == ls);
                        assert(reg.sorts[reg.term_sorts[else_term.0 as int].0 as int] == rs);
                        assert(ls != rs);
                    }
                    return Err(text_error("`ite` branches must have the same sort"));
                }
                proof {
                    lemma_chosen_term(d3.base(), cond, then_term, else_term, ls, c, u, v);
                }
                match cond {
                    BoolView::True => Ok(then_term),
                    BoolView::False => Ok(else_term),
                    BoolView::Lit(lit) => {
                        if then_term == else_term {
                            return Ok(then_term);
                        }
                        let result = self.choice_term(
                            lit,
                            then_term,
                            else_term,
                            sort,
                            Ghost(c),
                            Ghost(u),
                            Ghost(v),
                        );
                        proof {
                            d0.lemma_step(&d3, self, env);
                        }
                        result
                    },
                }
            },
        }
    }
}

/// Lowering inside a pushed scope, which is popped after it, adds definitions only.
proof fn lemma_nested(d1: &Driver, d2: &Driver, d3: &Driver, d4: &Driver)
    requires
        d2.base() == d1.base(),
        *d2 == (Driver { let_scopes: d2.let_scopes, ..*d1 }),
        d2.let_scopes@.len() > 0,
        d2.let_scopes@.drop_last() =~= d1.let_scopes@,
        d2.grows_to(d3),
        d4.base() == d3.base(),
        *d4 == (Driver { let_scopes: d4.let_scopes, ..*d3 }),
        d4.let_scopes@ == d3.let_scopes@.drop_last(),
    ensures
        d1.grows_to(d4),
        d4.full() == d3.full(),
{
}

/// Terms denote a value up to extensional equality.
proof fn lemma_term_same(base: Base, t: TermId, sort: SortView, u: Val, v: Val)
    requires
        base.term_denotes(t, sort, u),
        forall|s: Structure| #[trigger] u(s) == v(s),
    ensures
        base.term_denotes(t, sort, v),
{
    if base.clean {
        assert forall|a: Structure, b: Structure| #[trigger] agree(a, b) implies v(a) == v(b) by {
            assert(u(a) == v(a));
            assert(u(b) == v(b));
            assert(u(a) == u(b));
        }
    }
    if sort == SortView::Bool {
        assert forall|s: Structure| #[trigger] crate::qfuf::denote::two_valued(s) implies v(s)
            == crate::qfuf::denote::truth(s) || v(s) == crate::qfuf::denote::falsity(s) by {
            assert(u(s) == v(s));
        }
    }
    assert forall|s: Structure, a: Assignment| #[trigger] base.good(s, a) implies base.value(
        s,
        t.0 as int,
    ) == v(repaired(s)) by {
        assert(u(repaired(s)) == v(repaired(s)));
    }
}

/// Where the condition is constant or the branches are one term, a branch denotes the choice.
proof fn lemma_chosen_term(
    base: Base,
    cond: BoolView,
    x: TermId,
    y: TermId,
    sort: SortView,
    c: Prop,
    u: Val,
    v: Val,
)
    requires
        view_denotes(base, cond, c),
        base.term_denotes(x, sort, u),
        base.term_denotes(y, sort, v),
    ensures
        cond == BoolView::True ==> base.term_denotes(x, sort, chosen(c, u, v)),
        cond == BoolView::False ==> base.term_denotes(y, sort, chosen(c, u, v)),
        x == y ==> base.term_denotes(x, sort, chosen(c, u, v)),
{
    let w = chosen(c, u, v);
    if base.clean {
        assert forall|a: Structure, b: Structure| #[trigger] agree(a, b) implies w(a) == w(b) by {
            assert(c(a) == c(b) && u(a) == u(b) && v(a) == v(b));
        }
    }
    assert forall|s: Structure, a: Assignment| #[trigger] base.good(s, a) implies view_true(a, cond)
        == c(repaired(s)) && base.value(s, x.0 as int) == u(repaired(s)) && base.value(
        s,
        y.0 as int,
    ) == v(repaired(s)) by {}
}

/// The choice between plain predicates is plain.
proof fn lemma_choice_plain(base: Base, c: Prop, t: Prop, e: Prop, p: Prop)
    requires
        base.plain(c),
        base.plain(t),
        base.plain(e),
        forall|s: Structure| #[trigger]
            p(s) == if c(s) {
                t(s)
            } else {
                e(s)
            },
    ensures
        base.plain(p),
{
    if base.clean {
        assert forall|a: Structure, b: Structure| #[trigger] agree(a, b) implies p(a) == p(b) by {
            assert(c(a) == c(b) && t(a) == t(b) && e(a) == e(b));
            assert(p(a) == if c(a) {
                t(a)
            } else {
                e(a)
            });
            assert(p(b) == if c(b) {
                t(b)
            } else {
                e(b)
            });
        }
    }
}

/// Where the condition is constant or the branches are one view, a branch denotes the choice.
proof fn lemma_choice_denotes(
    base: Base,
    cond: BoolView,
    x: BoolView,
    y: BoolView,
    result: BoolView,
    c: Prop,
    t: Prop,
    e: Prop,
    p: Prop,
)
    requires
        view_denotes(base, cond, c),
        view_denotes(base, x, t),
        view_denotes(base, y, e),
        forall|s: Structure| #[trigger]
            p(s) == if c(s) {
                t(s)
            } else {
                e(s)
            },
        cond == BoolView::True && result == x || cond == BoolView::False && result == y || x == y
            && result == x,
    ensures
        view_denotes(base, result, p),
{
    lemma_choice_plain(base, c, t, e, p);
    assert forall|s: Structure, a: Assignment| #[trigger] base.good(s, a) implies view_true(
        a,
        result,
    ) == p(repaired(s)) by {
        let r = repaired(s);
        assert(p(r) == if c(r) {
            t(r)
        } else {
            e(r)
        });
        assert(view_true(a, cond) == c(r));
        assert(view_true(a, x) == t(r));
        assert(view_true(a, y) == e(r));
    }
}

/// Some of two predicates holds.
proof fn lemma_any_two(p: Prop, q: Prop, s: Structure)
    ensures
        any_of(seq![p, q])(s) == (p(s) || q(s)),
        all_of(seq![p, q])(s) == (p(s) && q(s)),
{
    let ps = seq![p, q];
    assert(ps[0] == p && ps[1] == q);
    if p(s) {
        assert(ps[0](s));
    }
    if q(s) {
        assert(ps[1](s));
    }
    if all_of(ps)(s) {
        assert(ps[0](s) && ps[1](s));
    }
}

proof fn lemma_choice_props(c: Prop, t: Prop, nc: Prop, e: Prop, s: Structure)
    requires
        nc(s) == !c(s),
    ensures
        any_of(seq![all_of(seq![c, t]), all_of(seq![nc, e])])(s) == if c(s) {
            t(s)
        } else {
            e(s)
        },
{
    lemma_any_two(all_of(seq![c, t]), all_of(seq![nc, e]), s);
    lemma_any_two(c, t, s);
    lemma_any_two(nc, e, s);
}

} // verus!
