//! Terms of the lowered formulas: Boolean domains, introduced constants and reified formulas.

use crate::euf::ids::{SortId, SymbolId, SymbolRef, TermId, TermRef};
use crate::euf::registry::{application, SortView, SymbolView};
use crate::qfuf::denote::{
    applied, chosen, falsity, reified, truth, two_valued, Prop, Sig, Structure, Val,
};
use crate::qfuf::driver::{
    fresh_name, view_denotes, view_true, BoolView, Driver, LowerError,
};
use crate::qfuf::models::{
    agree, boolean_val, extended, internal, interp_of, lemma_constants_plain, lemma_repaired,
    plain_prop, plain_val, repaired, sig_of, Base,
};
use crate::sat::{clause_true, lit_true, Assignment, Lit};
use crate::semantics::{lemma_value_unfold, value, values};
use crate::text::{decimal, decimal_text, joined3, lemma_decimal_injective};
use vstd::prelude::*;

verus! {

/// Returns the clause of two literals.
pub fn clause2(a: Lit, b: Lit) -> (clause: Vec<Lit>)
    ensures
        clause@ == seq![a, b],
{
    let mut clause: Vec<Lit> = Vec::new();
    clause.push(a);
    clause.push(b);
    proof {
        assert(clause@ =~= seq![a, b]);
    }
    clause
}

/// A clause of two literals is true when one of them is.
pub proof fn lemma_clause2(a: Assignment, x: Lit, y: Lit)
    ensures
        clause_true(a, seq![x, y]) == (lit_true(a, x) || lit_true(a, y)),
{
    let c = seq![x, y];
    assert(c[0] == x && c[1] == y);
    if clause_true(a, c) {
        let k = choose|k: int| 0 <= k < c.len() && lit_true(a, #[trigger] c[k]);
    }
    if lit_true(a, x) {
        assert(lit_true(a, c[0]));
    }
    if lit_true(a, y) {
        assert(lit_true(a, c[1]));
    }
}

/// Different numbers give different names of introduced constants.
proof fn lemma_fresh_name_injective(m: nat, n: nat)
    requires
        fresh_name(m) == fresh_name(n),
    ensures
        m == n,
{
    reveal_strlit("|@qfuf ");
    reveal_strlit("|");
    let a = fresh_name(m);
    let b = fresh_name(n);
    assert(a.len() == 8 + decimal_text(m).len());
    assert(b.len() == 8 + decimal_text(n).len());
    assert(a.subrange(7, a.len() - 1) =~= decimal_text(m));
    assert(b.subrange(7, b.len() - 1) =~= decimal_text(n));
    lemma_decimal_injective(m, n);
}

/// Names of introduced constants look introduced.
proof fn lemma_fresh_name_internal(n: nat)
    ensures
        internal(fresh_name(n)),
{
    reveal_strlit("|@qfuf ");
    assert(fresh_name(n).take(7) =~= "|@qfuf "@);
}

/// Completed two-valued structures give plain predicates and values what the structure gives them.
pub proof fn lemma_completed(b: Base, s: Structure)
    requires
        b.ok(),
        b.clean,
        two_valued(s),
    ensures
        forall|p: Prop| #[trigger] plain_prop(p) ==> p(repaired(extended(b.fresh, s))) == p(s),
        forall|v: Val| #[trigger] plain_val(v) ==> v(repaired(extended(b.fresh, s))) == v(s),
        truth(extended(b.fresh, s)) == truth(s),
        falsity(extended(b.fresh, s)) == falsity(s),
        truth(s) != falsity(s),
{
    b.lemma_extended(s);
    let r = repaired(extended(b.fresh, s));
    assert(agree(r, s));
}

/// The choice between plain values is plain.
proof fn lemma_chosen_plain(base: Base, c: Prop, u: Val, v: Val)
    requires
        base.plain(c),
        base.plain_value(u),
        base.plain_value(v),
    ensures
        base.plain_value(chosen(c, u, v)),
        base.plain_value(reified(c)),
        boolean_val(reified(c)),
        boolean_val(u) && boolean_val(v) ==> boolean_val(chosen(c, u, v)),
{
    lemma_constants_plain();
    if base.clean {
        assert forall|a: Structure, b: Structure| #[trigger] agree(a, b) implies chosen(c, u, v)(a)
            == chosen(c, u, v)(b) && reified(c)(a) == reified(c)(b) by {
            assert(c(a) == c(b) && u(a) == u(b) && v(a) == v(b));
            assert(truth(a) == truth(b) && falsity(a) == falsity(b));
        }
    }
    if boolean_val(u) && boolean_val(v) {
        assert forall|s: Structure| #[trigger] two_valued(s) implies chosen(c, u, v)(s) == truth(s)
            || chosen(c, u, v)(s) == falsity(s) by {}
    }
}

impl Driver {
    /// Adding sorts, symbols and terms keeps the parts fitting.
    proof fn lemma_interned_ok(&self, new: &Driver)
        requires
            self.steady(),
            new.euf.wf(),
            new.sat == self.sat,
            new.fresh == self.fresh,
            new.clean == self.clean,
            new.euf.bindings() == self.euf.bindings(),
            new.euf.interned().atoms == self.euf.interned().atoms,
            self.base().extends_to(new.base()),
            forall|f: int|
                self.base().reg.symbols.len() <= f < new.base().reg.symbols.len()
                    ==> #[trigger] new.base().symbol_ok(f),
            forall|t: int|
                self.base().reg.terms.len() <= t < new.base().reg.terms.len() ==> (
                #[trigger] new.base().reg.term_sorts[t]).0 < new.base().reg.sorts.len(),
        ensures
            new.base().ok(),
            new.base().realizable(),
    {
        new.euf.lemma_context();
        new.sat.lemma_wf();
        let b0 = self.base();
        let b1 = new.base();
        assert(b1.context() == new.euf.context());
        assert forall|f: int| 0 <= f < b1.reg.symbols.len() implies #[trigger] b1.symbol_ok(f) by {
            if f < b0.reg.symbols.len() {
                assert(b0.symbol_ok(f));
                assert(b1.reg.symbols[f] == b0.reg.symbols[f]);
            }
        }
        assert forall|t: int| 0 <= t < b1.reg.term_sorts.len() implies (
        #[trigger] b1.reg.term_sorts[t]).0 < b1.reg.sorts.len() by {
            if t < b0.reg.terms.len() {
                assert(b1.reg.term_sorts[t] == b0.reg.term_sorts[t]);
                assert(b0.reg.term_sorts[t].0 < b0.reg.sorts.len());
            }
        }
        assert forall|s: Sig| #[trigger] b1.fresh.contains_key(s) implies internal(s.name)
            && b1.plain_value(b1.fresh[s]) && (s.result == SortView::Bool ==> boolean_val(
            b1.fresh[s],
        )) by {
            assert(b0.fresh.contains_key(s));
        }
        assert(b1.ok());
        b0.lemma_realizable_interned(b1);
    }

    /// Adds the two-valued Boolean-domain clauses for one Bool-sorted term.
    fn enforce_bool_term_domain(&mut self, term: TermId)
        requires
            old(self).steady(),
            term.0 < old(self).base().reg.terms.len(),
            old(self).base().sort(term.0 as int) == SortView::Bool,
            old(self).base().reg.atoms.len() < 0xFFFF_FFFD,
            old(self).base().vars < 0xFFFF_FFFD,
        ensures
            final(self).steady(),
            old(self).grows_to(final(self)),
            final(self).used() <= old(self).used() + 16,
            final(self).base().reg.terms == old(self).base().reg.terms,
            final(self).base().reg.term_sorts == old(self).base().reg.term_sorts,
            final(self).base().reg.symbols == old(self).base().reg.symbols,
            final(self).base().reg.sorts == old(self).base().reg.sorts,
            final(self).base().vars <= old(self).base().vars + 2,
            final(self).base().reg.atoms.len() <= old(self).base().reg.atoms.len() + 2,
            final(self).fresh_const_counter == old(self).fresh_const_counter,
            final(self).fresh == old(self).fresh,
            final(self).domain_ok(term.0 as int),
    {
        let t_term = self.true_term;
        let f_term = self.false_term;
        let ghost d0 = *self;
        let true_lit = self.equality_literal(term, t_term);
        let ghost d1 = *self;
        let false_lit = self.equality_literal(term, f_term);
        let ghost d2 = *self;
        proof {
            d0.lemma_grows_trans(&d1, &d2);
            lemma_domain_lits(&d1, &d2, term, true_lit, false_lit);
            assert forall|s: Structure, a: Assignment|
                two_valued(s) && #[trigger] d2.base().good(
                    extended(d2.base().fresh, s),
                    a,
                ) implies clause_true(a, seq![true_lit, false_lit]) && clause_true(
                a,
                seq![true_lit.spec_negate(), false_lit.spec_negate()],
            ) by {
                let e = extended(d2.base().fresh, s);
                d2.base().lemma_extended(s);
                d2.lemma_term_boolean(e, term);
                lemma_clause2(a, true_lit, false_lit);
                lemma_clause2(a, true_lit.spec_negate(), false_lit.spec_negate());
            }
        }
        let one = clause2(true_lit, false_lit);
        self.define_clause(&one);
        let ghost d3 = *self;
        proof {
            assert forall|s: Structure, a: Assignment|
                two_valued(s) && #[trigger] d3.base().good(
                    extended(d3.base().fresh, s),
                    a,
                ) implies clause_true(
                a,
                seq![true_lit.spec_negate(), false_lit.spec_negate()],
            ) by {
                assert(d2.base().good(extended(d2.base().fresh, s), a));
            }
        }
        let two = clause2(true_lit.negate(), false_lit.negate());
        self.define_clause(&two);
        proof {
            d0.lemma_grows_trans(&d2, &d3);
            d0.lemma_grows_trans(&d3, self);
            assert forall|s: Structure, a: Assignment| #[trigger] self.base().good(s, a) implies self.base().value(
            s, term.0 as int) == truth(s) || self.base().value(s, term.0 as int) == falsity(s) by {
                assert(d3.base().good(s, a));
                assert(d2.base().good(s, a));
                lemma_clause2(a, true_lit, false_lit);
            }
        }
    }

    /// In two-valued structures terms of sort Bool are truth or falsity.
    proof fn lemma_term_boolean(&self, s: Structure, term: TermId)
        requires
            self.steady(),
            two_valued(s),
            term.0 < self.base().reg.terms.len(),
            self.base().sort(term.0 as int) == SortView::Bool,
        ensures
            self.base().value(s, term.0 as int) == truth(s) || self.base().value(
                s,
                term.0 as int,
            ) == falsity(s),
    {
        let reg = self.base().reg;
        let t = term.0 as int;
        let m = interp_of(reg, s);
        lemma_value_unfold(reg.terms, m, t);
        assert(reg.well_sorted(t));
        let sig = sig_of(reg, reg.symbols[reg.terms[t].fun]);
        assert(sig.result == SortView::Bool);
        let args = values(reg.terms, m, reg.terms[t].args);
        assert(s(sig, args) == truth(s) || s(sig, args) == falsity(s));
    }

    /// Interns one term, with two-valued domain clauses where it is a new term of sort Bool.
    pub fn intern_term(&mut self, fun: SymbolId, args: &[TermId], sort: SortId) -> (result: Result<
        TermId,
        LowerError,
    >)
        requires
            old(self).wf(),
            old(self).base().reg.accepts(fun, args@, sort),
        ensures
            final(self).wf(),
            old(self).grows_to(final(self)),
            final(self).used() <= old(self).used() + 8,
            final(self).fresh == old(self).fresh,
            result matches Ok(term) ==> {
                &&& term.0 < final(self).base().reg.terms.len()
                &&& final(self).base().reg.terms[term.0 as int] == application(fun, args@)
                &&& final(self).base().reg.term_sorts[term.0 as int] == sort
                &&& final(self).base().vars <= old(self).base().vars + 2
                &&& final(self).base().reg.atoms.len() <= old(self).base().reg.atoms.len() + 2
            },
            result matches Err(error) ==> error is Full && final(self).full(),
    {
        if !self.has_room() {
            proof {
                self.lemma_grows_refl();
            }
            return Err(LowerError::Full);
        }
        let ghost d0 = *self;
        let known = self.euf.num_terms();
        let term = self.euf.intern_term(TermRef { fun, args }, sort);
        let ghost d1 = *self;
        proof {
            assert(d0.base().reg.terms.len() == d0.base().reg.term_sorts.len());
            assert(d0.base().symbol_ok(fun.0 as int));
            assert(d0.base().extends_to(d1.base()));
            d0.lemma_interned_ok(&d1);
            d0.lemma_declared_grow(&d1);
            d0.lemma_fresh_names_same(&d1);
            d0.lemma_framed_grow(&d1);
            assert(d1.steady());
        }
        if term.index() >= known && sort == self.bool_sort {
            proof {
                assert(term.0 == known);
            }
            self.enforce_bool_term_domain(term);
            proof {
                d0.lemma_grows_trans(&d1, self);
                d0.base().lemma_separated_grow(self.base());
                d0.lemma_framed_grow(self);
                assert forall|t: int|
                    0 <= t < self.base().reg.terms.len() && self.base().sort(t)
                        == SortView::Bool implies #[trigger] self.domain_ok(t) by {
                    if t != term.0 {
                        assert(self.base().reg.term_sorts[t] == d0.base().reg.term_sorts[t]);
                        assert(d0.base().reg.term_sorts[t].0 < d0.base().reg.sorts.len());
                        assert(d0.base().sort(t) == SortView::Bool);
                        assert(d0.domain_ok(t));
                        d0.lemma_domain_grow(self, t);
                    }
                }
            }
        } else {
            proof {
                d0.base().lemma_separated_grow(self.base());
                assert forall|t: int|
                    0 <= t < self.base().reg.terms.len() && self.base().sort(t)
                        == SortView::Bool implies #[trigger] self.domain_ok(t) by {
                    if t < known {
                        assert(self.base().reg.term_sorts[t] == d0.base().reg.term_sorts[t]);
                        assert(d0.base().reg.term_sorts[t].0 < d0.base().reg.sorts.len());
                        assert(d0.base().sort(t) == SortView::Bool);
                        assert(d0.domain_ok(t));
                        d0.lemma_domain_grow(self, t);
                    } else {
                        let sorts = d0.base().reg.sorts;
                        assert(d0.base().reg.terms.contains(application(fun, args@)) ==> false);
                        assert(t == known);
                        assert(term.0 < known ==> d0.base().reg.terms[term.0 as int]
                            == application(fun, args@));
                        assert(sorts[sort.0 as int] == sorts[self.bool_sort.0 as int]);
                        assert(sort == self.bool_sort);
                    }
                }
            }
        }
        Ok(term)
    }

    /// Interns one application of a declared symbol to terms with known values.
    pub fn apply(
        &mut self,
        fun: SymbolId,
        args: &[TermId],
        sort: SortId,
        Ghost(vals): Ghost<Seq<Val>>,
    ) -> (result: Result<TermId, LowerError>)
        requires
            old(self).wf(),
            old(self).base().reg.accepts(fun, args@, sort),
            old(self).base().clean ==> !internal(
                old(self).base().reg.symbols[fun.0 as int].name,
            ),
            vals.len() == args@.len(),
            forall|k: int|
                0 <= k < args@.len() ==> old(self).base().term_denotes(
                    #[trigger] args@[k],
                    old(self).base().sort(args@[k].0 as int),
                    vals[k],
                ),
        ensures
            final(self).wf(),
            old(self).grows_to(final(self)),
            final(self).used() <= old(self).used() + 8,
            result matches Ok(term) ==> final(self).base().term_denotes(
                term,
                old(self).base().reg.sorts[sort.0 as int],
                applied(
                    sig_of(old(self).base().reg, old(self).base().reg.symbols[fun.0 as int]),
                    vals,
                ),
            ),
            result matches Err(error) ==> error is Full && final(self).full(),
    {
        let ghost d0 = *self;
        match self.intern_term(fun, args, sort) {
            Err(error) => Err(error),
            Ok(term) => {
                proof {
                    lemma_applied(&d0, self, fun, args@, sort, vals, term);
                }
                Ok(term)
            },
        }
    }

    /// Interns one fresh constant term of the requested sort, which is to have value `val`.
    fn fresh_const_term(&mut self, sort: SortId, Ghost(val): Ghost<Val>) -> (result: Result<
        (TermId, Ghost<Sig>),
        LowerError,
    >)
        requires
            old(self).wf(),
            sort.0 < old(self).base().reg.sorts.len(),
            old(self).base().plain_value(val),
            old(self).base().reg.sorts[sort.0 as int] == SortView::Bool ==> boolean_val(val),
        ensures
            final(self).wf(),
            old(self).grows_to(final(self)),
            final(self).used() <= old(self).used() + 10,
            result matches Err(error) ==> error is Full && final(self).full(),
            result matches Ok((term, sig)) ==> {
                &&& final(self).is_introduced(term, sig@, sort)
                &&& final(self).fresh@.contains_key(sig@)
                &&& final(self).fresh@[sig@] == val
                &&& final(self).base().vars < 0xFFFF_FFFD
                &&& final(self).base().reg.atoms.len() < 0xFFFF_FFFD
            },
    {
        if !self.has_room() {
            proof {
                self.lemma_grows_refl();
            }
            return Err(LowerError::Full);
        }
        let ghost d0 = *self;
        let n = self.fresh_const_counter;
        let number = decimal(n);
        let name = joined3("|@qfuf ", number.as_str(), "|");
        self.fresh_const_counter = n + 1;
        let symbol = self.euf.intern_symbol(
            SymbolRef { name: name.as_str(), arg_sorts: &[], result_sort: sort },
        );
        let ghost view = SymbolView {
            name: name@,
            arg_sorts: Seq::<SortId>::empty(),
            result_sort: sort,
        };
        let ghost sig = Sig {
            name: name@,
            args: Seq::<SortView>::empty(),
            result: d0.base().reg.sorts[sort.0 as int],
        };
        self.fresh = Ghost(d0.fresh@.insert(sig, val));
        let ghost d1 = *self;
        proof {
            let reg = d1.base().reg;
            assert(reg.symbols[symbol.0 as int] =~= view);
            assert(name@ =~= fresh_name(n as nat));
            lemma_fresh_name_internal(n as nat);
            assert(sig_of(reg, view) =~= sig);
            d0.lemma_introduced(&d1, n, view, sig, val);
        }
        match self.intern_term(symbol, &[], sort) {
            Err(error) => {
                proof {
                    d0.lemma_grows_trans(&d1, self);
                }
                Err(error)
            },
            Ok(term) => {
                proof {
                    d0.lemma_grows_trans(&d1, self);
                    let reg = d1.base().reg;
                    let more = self.base().reg;
                    assert(more.symbols[symbol.0 as int] == reg.symbols[symbol.0 as int]);
                    assert(more.sorts[sort.0 as int] == reg.sorts[sort.0 as int]);
                    assert(sig_of(more, view) =~= sig);
                }
                Ok((term, Ghost(sig)))
            },
        }
    }

    /// Term `t` is the introduced constant `sig`.
    pub open spec fn is_introduced(&self, t: TermId, sig: Sig, sort: SortId) -> bool {
        let reg = self.base().reg;
        &&& t.0 < reg.terms.len()
        &&& reg.terms[t.0 as int].args.len() == 0
        &&& sig_of(reg, reg.symbols[reg.terms[t.0 as int].fun]) == sig
        &&& reg.term_sorts[t.0 as int] == sort
    }

    /// Introducing a constant keeps the driver consistent.
    proof fn lemma_introduced(&self, new: &Driver, n: u64, view: SymbolView, sig: Sig, val: Val)
        requires
            self.wf(),
            new.euf.wf(),
            *new == (Driver {
                euf: new.euf,
                fresh: new.fresh,
                fresh_const_counter: new.fresh_const_counter,
                ..*self
            }),
            n == self.fresh_const_counter,
            new.fresh_const_counter == n + 1,
            new.fresh@ == self.fresh@.insert(sig, val),
            new.euf.bindings() == self.euf.bindings(),
            new.euf.interned() == (crate::euf::registry::RegistryView {
                symbols: if self.base().reg.symbols.contains(view) {
                    self.base().reg.symbols
                } else {
                    self.base().reg.symbols.push(view)
                },
                ..self.base().reg
            }),
            view.name == fresh_name(n as nat),
            view.arg_sorts.len() == 0,
            view.result_sort.0 < self.base().reg.sorts.len(),
            internal(view.name),
            sig == sig_of(self.base().reg, view),
            self.base().plain_value(val),
            sig.result == SortView::Bool ==> boolean_val(val),
        ensures
            new.wf(),
            self.grows_to(new),
    {
        let b0 = self.base();
        let b1 = new.base();
        new.euf.lemma_context();
        new.sat.lemma_wf();
        assert(b1.context() == new.euf.context());
        assert forall|f: int| 0 <= f < b1.reg.symbols.len() implies #[trigger] b1.symbol_ok(f) by {
            if f < b0.reg.symbols.len() {
                assert(b0.symbol_ok(f));
                assert(b1.reg.symbols[f] == b0.reg.symbols[f]);
            }
        }
        assert forall|s: Sig| #[trigger] b1.fresh.contains_key(s) implies internal(s.name)
            && b1.plain_value(b1.fresh[s]) && (s.result == SortView::Bool ==> boolean_val(
            b1.fresh[s],
        )) by {
            if s != sig {
                assert(b0.fresh.contains_key(s));
            }
        }
        assert(b1.ok());
        assert(b0.extends_to(b1));
        if b0.clean {
            assert forall|f: int| 0 <= f < b0.reg.symbols.len() implies sig_of(
                b0.reg,
                #[trigger] b0.reg.symbols[f],
            ) != sig by {
                if sig_of(b0.reg, b0.reg.symbols[f]) == sig {
                    assert(b0.reg.symbols[f].name == view.name);
                    assert(self.used_name(view.name));
                    let m = choose|m: nat|
                        m < self.fresh_const_counter && view.name == #[trigger] fresh_name(m);
                    lemma_fresh_name_injective(m, n as nat);
                }
            }
            b0.lemma_realizable_fresh(b1, sig, val);
        }
        self.lemma_declared_grow(new);
        if new.clean@ {
            assert forall|f: int|
                0 <= f < b1.reg.symbols.len() && internal(
                    (#[trigger] b1.reg.symbols[f]).name,
                ) implies new.used_name(b1.reg.symbols[f].name) by {
                if f < b0.reg.symbols.len() {
                    assert(b1.reg.symbols[f] == b0.reg.symbols[f]);
                    assert(self.used_name(b0.reg.symbols[f].name));
                    let m = choose|m: nat|
                        m < self.fresh_const_counter && b0.reg.symbols[f].name
                            == #[trigger] fresh_name(m);
                    assert(fresh_name(m) == b1.reg.symbols[f].name);
                } else {
                    assert(b1.reg.symbols[f].name == fresh_name(n as nat));
                }
            }
        }
        assert(new.steady());
        self.lemma_two_valued_grow(new);
        self.lemma_framed_grow(new);
    }

    /// The value of an introduced constant is what the structure gives it.
    proof fn lemma_introduced_value(&self, s: Structure, t: TermId, sig: Sig, sort: SortId)
        requires
            self.steady(),
            self.is_introduced(t, sig, sort),
            self.fresh@.contains_key(sig),
        ensures
            self.base().value(extended(self.fresh@, s), t.0 as int) == self.fresh@[sig](s),
    {
        let reg = self.base().reg;
        let e = extended(self.fresh@, s);
        let m = interp_of(reg, e);
        lemma_value_unfold(reg.terms, m, t.0 as int);
    }

    /// Introduces one constant that equals `then_term` where `lit` is true and `else_term` elsewhere.
    pub fn choice_term(
        &mut self,
        lit: Lit,
        then_term: TermId,
        else_term: TermId,
        sort: SortId,
        Ghost(c): Ghost<Prop>,
        Ghost(u): Ghost<Val>,
        Ghost(v): Ghost<Val>,
    ) -> (result: Result<TermId, LowerError>)
        requires
            old(self).wf(),
            sort.0 < old(self).base().reg.sorts.len(),
            view_denotes(old(self).base(), BoolView::Lit(lit), c),
            old(self).base().term_denotes(
                then_term,
                old(self).base().reg.sorts[sort.0 as int],
                u,
            ),
            old(self).base().term_denotes(
                else_term,
                old(self).base().reg.sorts[sort.0 as int],
                v,
            ),
        ensures
            final(self).wf(),
            old(self).grows_to(final(self)),
            final(self).used() <= old(self).used() + 16,
            result matches Ok(term) ==> final(self).base().term_denotes(
                term,
                old(self).base().reg.sorts[sort.0 as int],
                chosen(c, u, v),
            ),
            result matches Err(error) ==> error is Full && final(self).full(),
    {
        let ghost d0 = *self;
        let ghost val = chosen(c, u, v);
        let ghost sv = d0.base().reg.sorts[sort.0 as int];
        proof {
            lemma_chosen_plain(d0.base(), c, u, v);
        }
        match self.fresh_const_term(sort, Ghost(val)) {
            Err(error) => Err(error),
            Ok((term, sig)) => {
                let ghost d1 = *self;
                proof {
                    assert(then_term.0 < d1.base().reg.terms.len());
                }
                let then_eq = self.equality_literal(term, then_term);
                let ghost d2 = *self;
                let else_eq = self.equality_literal(term, else_term);
                let ghost d3 = *self;
                proof {
                    d0.lemma_grows_trans(&d1, &d2);
                    d0.lemma_grows_trans(&d2, &d3);
                    d0.lemma_view_grow(&d3, BoolView::Lit(lit), c);
                    d0.base().lemma_term_grow(d3.base(), then_term, sv, u);
                    d0.base().lemma_term_grow(d3.base(), else_term, sv, v);
                    lemma_domain_lits2(&d2, &d3, term, then_term, else_term, then_eq, else_eq);
                    d1.lemma_wf_grow(&d2);
                    d2.lemma_wf_grow(&d3);
                    assert(d3.is_introduced(term, sig@, sort)) by {
                        d1.lemma_introduced_grow(&d3, term, sig@, sort);
                    }
                    assert forall|s: Structure, a: Assignment|
                        two_valued(s) && #[trigger] d3.base().good(
                            extended(d3.base().fresh, s),
                            a,
                        ) implies clause_true(a, seq![lit.spec_negate(), then_eq]) && clause_true(
                        a,
                        seq![lit, else_eq],
                    ) by {
                        let e = extended(d3.base().fresh, s);
                        lemma_completed(d3.base(), s);
                        d3.lemma_introduced_value(s, term, sig@, sort);
                        assert(view_true(a, BoolView::Lit(lit)) == c(repaired(e)));
                        lemma_clause2(a, lit.spec_negate(), then_eq);
                        lemma_clause2(a, lit, else_eq);
                        assert(c(repaired(e)) == c(s));
                        assert(u(repaired(e)) == u(s));
                        assert(v(repaired(e)) == v(s));
                    }
                }
                let one = clause2(lit.negate(), then_eq);
                self.define_clause(&one);
                let ghost d4 = *self;
                proof {
                    assert forall|s: Structure, a: Assignment|
                        two_valued(s) && #[trigger] d4.base().good(
                            extended(d4.base().fresh, s),
                            a,
                        ) implies clause_true(a, seq![lit, else_eq]) by {
                        assert(d3.base().good(extended(d3.base().fresh, s), a));
                    }
                }
                let two = clause2(lit, else_eq);
                self.define_clause(&two);
                proof {
                    d3.lemma_wf_grow(&d4);
                    d4.lemma_wf_grow(self);
                    d0.lemma_grows_trans(&d3, &d4);
                    d0.lemma_grows_trans(&d4, self);
                    let b = self.base();
                    assert(b.reg == d3.base().reg);
                    assert(b.sort(term.0 as int) == sv) by {
                        assert(b.reg.sorts[sort.0 as int] == sv);
                    }
                    if sv == SortView::Bool {
                        assert(boolean_val(val));
                    }
                    assert forall|s: Structure, a: Assignment| #[trigger] b.good(s, a) implies b.value(
                    s, term.0 as int) == val(repaired(s)) by {
                        assert(d4.base().good(s, a));
                        assert(d3.base().good(s, a));
                        lemma_clause2(a, lit.spec_negate(), then_eq);
                        lemma_clause2(a, lit, else_eq);
                        assert(view_true(a, BoolView::Lit(lit)) == c(repaired(s)));
                    }
                }
                Ok(term)
            },
        }
    }

    /// Introduced constants stay what they are when definitions are added.
    proof fn lemma_introduced_grow(&self, new: &Driver, t: TermId, sig: Sig, sort: SortId)
        requires
            self.steady(),
            new.steady(),
            self.grows_to(new),
            self.is_introduced(t, sig, sort),
        ensures
            new.is_introduced(t, sig, sort),
    {
        let reg = self.base().reg;
        let more = new.base().reg;
        assert(reg.well_sorted(t.0 as int));
        let f = reg.terms[t.0 as int].fun;
        assert(more.terms[t.0 as int] == reg.terms[t.0 as int]);
        assert(more.term_sorts[t.0 as int] == reg.term_sorts[t.0 as int]);
        assert(more.symbols[f] == reg.symbols[f]);
        assert(self.base().symbol_ok(f));
        assert(sig_of(more, more.symbols[f]) =~= sig_of(reg, reg.symbols[f]));
    }

    /// The constants for truth and falsity denote themselves.
    pub proof fn lemma_constants_denote(&self)
        requires
            self.wf(),
        ensures
            self.base().term_denotes(
                self.true_term,
                SortView::Bool,
                (|s: Structure| truth(s)),
            ),
            self.base().term_denotes(
                self.false_term,
                SortView::Bool,
                (|s: Structure| falsity(s)),
            ),
    {
        let t = |s: Structure| truth(s);
        let f = |s: Structure| falsity(s);
        lemma_constants_plain();
        assert forall|a: Structure, b: Structure| #[trigger] agree(a, b) implies t(a) == t(b)
            && f(a) == f(b) by {
            assert(a(crate::qfuf::denote::true_sig(), Seq::empty()) == b(
                crate::qfuf::denote::true_sig(),
                Seq::empty(),
            ));
            assert(a(crate::qfuf::denote::false_sig(), Seq::empty()) == b(
                crate::qfuf::denote::false_sig(),
                Seq::empty(),
            ));
        }
        assert forall|s: Structure, a: Assignment| #[trigger] self.base().good(s, a) implies self.base().value(
        s, self.true_term.0 as int) == t(repaired(s)) && self.base().value(
            s,
            self.false_term.0 as int,
        ) == f(repaired(s)) by {
            self.lemma_constant_values(s);
            lemma_repaired(s);
        }
    }

    /// Reifies one Boolean view into one Bool-sorted term.
    pub fn bool_view_term(&mut self, view: BoolView, Ghost(p): Ghost<Prop>) -> (result: Result<
        TermId,
        LowerError,
    >)
        requires
            old(self).wf(),
            view_denotes(old(self).base(), view, p),
        ensures
            final(self).wf(),
            old(self).grows_to(final(self)),
            final(self).used() <= old(self).used() + 16,
            result matches Ok(term) ==> final(self).base().term_denotes(
                term,
                SortView::Bool,
                reified(p),
            ),
            result matches Err(error) ==> error is Full && final(self).full(),
    {
        let ghost d0 = *self;
        let ghost t = |s: Structure| truth(s);
        let ghost f = |s: Structure| falsity(s);
        proof {
            self.lemma_grows_refl();
            self.lemma_constants_denote();
            lemma_chosen_plain(d0.base(), p, t, f);
        }
        match view {
            BoolView::True => {
                proof {
                    assert forall|s: Structure, a: Assignment| #[trigger] self.base().good(
                        s,
                        a,
                    ) implies self.base().value(s, self.true_term.0 as int) == reified(p)(
                        repaired(s),
                    ) by {
                        assert(view_true(a, view) == p(repaired(s)));
                    }
                }
                Ok(self.true_term)
            },
            BoolView::False => {
                proof {
                    assert forall|s: Structure, a: Assignment| #[trigger] self.base().good(
                        s,
                        a,
                    ) implies self.base().value(s, self.false_term.0 as int) == reified(p)(
                        repaired(s),
                    ) by {
                        assert(view_true(a, view) == p(repaired(s)));
                    }
                }
                Ok(self.false_term)
            },
            BoolView::Lit(lit) => {
                let true_term = self.true_term;
                let false_term = self.false_term;
                let sort = self.bool_sort;
                let result = self.choice_term(
                    lit,
                    true_term,
                    false_term,
                    sort,
                    Ghost(p),
                    Ghost(t),
                    Ghost(f),
                );
                proof {
                    if let Ok(term) = result {
                        assert forall|s: Structure, a: Assignment| #[trigger] self.base().good(
                            s,
                            a,
                        ) implies self.base().value(s, term.0 as int) == reified(p)(
                            repaired(s),
                        ) by {
                            assert(chosen(p, t, f)(repaired(s)) == reified(p)(repaired(s)));
                        }
                    }
                }
                result
            },
        }
    }

    /// Returns one literal that is true exactly when the Bool-sorted term is.
    pub fn bool_term_literal(&mut self, term: TermId, Ghost(val): Ghost<Val>) -> (result: Result<
        Lit,
        LowerError,
    >)
        requires
            old(self).wf(),
            old(self).base().term_denotes(term, SortView::Bool, val),
        ensures
            final(self).wf(),
            old(self).grows_to(final(self)),
            final(self).used() <= old(self).used() + 16,
            result matches Ok(lit) ==> view_denotes(
                final(self).base(),
                BoolView::Lit(lit),
                crate::qfuf::denote::holds(val),
            ),
            result matches Err(error) ==> error is Full && final(self).full(),
    {
        if !self.has_room() {
            proof {
                self.lemma_grows_refl();
            }
            return Err(LowerError::Full);
        }
        let ghost d0 = *self;
        let true_term = self.true_term;
        let lit = self.equality_literal(term, true_term);
        proof {
            let b = self.base();
            d0.lemma_wf_grow(self);
            d0.base().lemma_term_grow(b, term, SortView::Bool, val);
            self.lemma_constants_denote();
            let t = |s: Structure| truth(s);
            let p = crate::qfuf::denote::holds(val);
            if b.clean {
                assert forall|x: Structure, y: Structure| #[trigger] agree(x, y) implies p(x) == p(
                    y,
                ) by {
                    assert(t(x) == t(y));
                    assert(val(x) == val(y));
                }
            }
            assert forall|s: Structure, a: Assignment| #[trigger] b.good(s, a) implies view_true(
                a,
                BoolView::Lit(lit),
            ) == p(repaired(s)) by {
                assert(b.value(s, true_term.0 as int) == t(repaired(s)));
            }
        }
        Ok(lit)
    }

    /// Returns one view of the equality of two terms.
    pub fn term_equality(
        &mut self,
        lhs: TermId,
        rhs: TermId,
        Ghost(ls): Ghost<SortView>,
        Ghost(u): Ghost<Val>,
        Ghost(rs): Ghost<SortView>,
        Ghost(v): Ghost<Val>,
    ) -> (result: Result<BoolView, LowerError>)
        requires
            old(self).wf(),
            old(self).base().term_denotes(lhs, ls, u),
            old(self).base().term_denotes(rhs, rs, v),
        ensures
            final(self).wf(),
            old(self).grows_to(final(self)),
            final(self).used() <= old(self).used() + 16,
            result matches Ok(view) ==> view_denotes(
                final(self).base(),
                view,
                (|s: Structure| u(s) == v(s)),
            ),
            result matches Err(error) ==> error is Full && final(self).full(),
    {
        if !self.has_room() {
            proof {
                self.lemma_grows_refl();
            }
            return Err(LowerError::Full);
        }
        let ghost d0 = *self;
        let lit = self.equality_literal(lhs, rhs);
        proof {
            let b = self.base();
            d0.lemma_wf_grow(self);
            d0.base().lemma_term_grow(b, lhs, ls, u);
            d0.base().lemma_term_grow(b, rhs, rs, v);
            let p = |s: Structure| u(s) == v(s);
            if b.clean {
                assert forall|x: Structure, y: Structure| #[trigger] agree(x, y) implies p(x) == p(
                    y,
                ) by {
                    assert(u(x) == u(y));
                    assert(v(x) == v(y));
                }
            }
        }
        Ok(BoolView::Lit(lit))
    }
}

/// The literals for the equalities of one term with truth and with falsity.
proof fn lemma_domain_lits(d1: &Driver, d2: &Driver, term: TermId, true_lit: Lit, false_lit: Lit)
    requires
        d1.steady(),
        d2.steady(),
        d1.grows_to(d2),
        term.0 < d1.base().reg.terms.len(),
        true_lit.var.0 < d1.base().vars,
        forall|s: Structure, a: Assignment| #[trigger]
            d1.base().good(s, a) ==> lit_true(a, true_lit) == (d1.base().value(s, term.0 as int)
                == d1.base().value(s, d1.true_term.0 as int)),
        forall|s: Structure, a: Assignment| #[trigger]
            d2.base().good(s, a) ==> lit_true(a, false_lit) == (d2.base().value(s, term.0 as int)
                == d2.base().value(s, d2.false_term.0 as int)),
    ensures
        forall|s: Structure, a: Assignment| #[trigger]
            d2.base().good(s, a) ==> lit_true(a, true_lit) == (d2.base().value(s, term.0 as int)
                == truth(s)),
        forall|s: Structure, a: Assignment| #[trigger]
            d2.base().good(s, a) ==> lit_true(a, false_lit) == (d2.base().value(s, term.0 as int)
                == falsity(s)),
{
    assert forall|s: Structure, a: Assignment| #[trigger] d2.base().good(s, a) implies lit_true(
        a,
        true_lit,
    ) == (d2.base().value(s, term.0 as int) == truth(s)) && lit_true(a, false_lit) == (
    d2.base().value(s, term.0 as int) == falsity(s)) by {
        d1.base().lemma_good_smaller(d2.base(), s, a);
        d1.base().lemma_value_same(d2.base(), s, term.0 as int);
        d1.lemma_constant_values(s);
        d2.lemma_constant_values(s);
    }
}

/// The literals for the equalities of one term with two others.
proof fn lemma_domain_lits2(
    d1: &Driver,
    d2: &Driver,
    term: TermId,
    x: TermId,
    y: TermId,
    x_lit: Lit,
    y_lit: Lit,
)
    requires
        d1.steady(),
        d2.steady(),
        d1.grows_to(d2),
        term.0 < d1.base().reg.terms.len(),
        x.0 < d1.base().reg.terms.len(),
        forall|s: Structure, a: Assignment| #[trigger]
            d1.base().good(s, a) ==> lit_true(a, x_lit) == (d1.base().value(s, term.0 as int)
                == d1.base().value(s, x.0 as int)),
        forall|s: Structure, a: Assignment| #[trigger]
            d2.base().good(s, a) ==> lit_true(a, y_lit) == (d2.base().value(s, term.0 as int)
                == d2.base().value(s, y.0 as int)),
    ensures
        forall|s: Structure, a: Assignment| #[trigger]
            d2.base().good(s, a) ==> lit_true(a, x_lit) == (d2.base().value(s, term.0 as int)
                == d2.base().value(s, x.0 as int)),
{
    assert forall|s: Structure, a: Assignment| #[trigger] d2.base().good(s, a) implies lit_true(
        a,
        x_lit,
    ) == (d2.base().value(s, term.0 as int) == d2.base().value(s, x.0 as int)) by {
        d1.base().lemma_good_smaller(d2.base(), s, a);
        d1.base().lemma_value_same(d2.base(), s, term.0 as int);
        d1.base().lemma_value_same(d2.base(), s, x.0 as int);
    }
}

/// An application denotes the symbol applied to what its arguments denote.
proof fn lemma_applied(
    d0: &Driver,
    d1: &Driver,
    fun: SymbolId,
    args: Seq<TermId>,
    sort: SortId,
    vals: Seq<Val>,
    term: TermId,
)
    requires
        d0.wf(),
        d1.wf(),
        d0.grows_to(d1),
        d0.base().reg.accepts(fun, args, sort),
        d0.base().clean ==> !internal(d0.base().reg.symbols[fun.0 as int].name),
        vals.len() == args.len(),
        forall|k: int|
            0 <= k < args.len() ==> d0.base().term_denotes(
                #[trigger] args[k],
                d0.base().sort(args[k].0 as int),
                vals[k],
            ),
        term.0 < d1.base().reg.terms.len(),
        d1.base().reg.terms[term.0 as int] == application(fun, args),
        d1.base().reg.term_sorts[term.0 as int] == sort,
    ensures
        d1.base().term_denotes(
            term,
            d0.base().reg.sorts[sort.0 as int],
            applied(sig_of(d0.base().reg, d0.base().reg.symbols[fun.0 as int]), vals),
        ),
{
    let b0 = d0.base();
    let b = d1.base();
    let f = fun.0 as int;
    let t = term.0 as int;
    let sig = sig_of(b0.reg, b0.reg.symbols[f]);
    let sv = b0.reg.sorts[sort.0 as int];
    let val = applied(sig, vals);
    assert(b0.symbol_ok(f));
    assert(b.reg.symbols[f] == b0.reg.symbols[f]);
    assert(sig_of(b.reg, b.reg.symbols[f]) =~= sig);
    assert(b.reg.sorts[sort.0 as int] == sv);
    assert forall|k: int| 0 <= k < args.len() implies b.term_denotes(
        #[trigger] args[k],
        b0.sort(args[k].0 as int),
        vals[k],
    ) by {
        b0.lemma_term_grow(b, args[k], b0.sort(args[k].0 as int), vals[k]);
    }
    if b.clean {
        assert forall|x: Structure, y: Structure| #[trigger] agree(x, y) implies val(x) == val(
            y,
        ) by {
            assert forall|k: int| 0 <= k < vals.len() implies (#[trigger] vals[k])(x) == vals[k](
                y,
            ) by {
                assert(b.term_denotes(args[k], b0.sort(args[k].0 as int), vals[k]));
            }
            let xs = Seq::new(vals.len(), |i: int| vals[i](x));
            let ys = Seq::new(vals.len(), |i: int| vals[i](y));
            assert(xs =~= ys);
            assert(x(sig, xs) == y(sig, xs));
        }
    }
    if sv == SortView::Bool {
        assert forall|s: Structure| #[trigger] two_valued(s) implies val(s) == truth(s) || val(s)
            == falsity(s) by {
            let xs = Seq::new(vals.len(), |i: int| vals[i](s));
            assert(s(sig, xs) == truth(s) || s(sig, xs) == falsity(s));
        }
        assert(b.sort(t) == SortView::Bool);
        assert(d1.domain_ok(t));
    }
    assert forall|s: Structure, a: Assignment| #[trigger] b.good(s, a) implies b.value(s, t) == val(
        repaired(s),
    ) by {
        let m = interp_of(b.reg, s);
        let r = repaired(s);
        lemma_value_unfold(b.reg.terms, m, t);
        let app = b.reg.terms[t];
        let xs = Seq::new(vals.len(), |i: int| vals[i](r));
        assert(values(b.reg.terms, m, app.args) =~= xs) by {
            assert forall|k: int| 0 <= k < args.len() implies values(b.reg.terms, m, app.args)[k]
                == xs[k] by {
                assert(b.term_denotes(args[k], b0.sort(args[k].0 as int), vals[k]));
                assert(app.args[k] == args[k].0 as int);
                assert(b.value(s, args[k].0 as int) == vals[k](r));
            }
        }
        assert(b.value(s, t) == s(sig, xs));
        assert(val(r) == r(sig, xs));
    }
}

} // verus!
