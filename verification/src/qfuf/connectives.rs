//! Lowering of Boolean connectives over already lowered views.

use crate::qfuf::denote::{all_of, any_of, Prop, Structure};
use crate::qfuf::driver::{negate_view, negated, view_denotes, view_true, BoolView, Driver, LowerError};
use crate::qfuf::models::{agree, plain_prop, repaired, same_below, Base};
use crate::sat::{
    clause_true, clause_views, clauses_true, lit_true, lits_below, lits_true, Assignment, Lit, Var,
};
use vstd::prelude::*;

verus! {

/// Every view denotes its predicate.
pub open spec fn views_denote(base: Base, views: Seq<BoolView>, ps: Seq<Prop>) -> bool {
    &&& views.len() == ps.len()
    &&& forall|i: int| 0 <= i < views.len() ==> view_denotes(base, #[trigger] views[i], ps[i])
}

/// Every view is true.
pub open spec fn views_true(a: Assignment, views: Seq<BoolView>) -> bool {
    forall|i: int| 0 <= i < views.len() ==> view_true(a, #[trigger] views[i])
}

/// Some view is true.
pub open spec fn some_view_true(a: Assignment, views: Seq<BoolView>) -> bool {
    exists|i: int| 0 <= i < views.len() && view_true(a, #[trigger] views[i])
}

/// The conjunction of plain predicates is plain.
pub proof fn lemma_all_plain(base: Base, ps: Seq<Prop>)
    requires
        forall|i: int| 0 <= i < ps.len() ==> base.plain(#[trigger] ps[i]),
    ensures
        base.plain(all_of(ps)),
        base.plain(any_of(ps)),
{
    if base.clean {
        lemma_all_plain_props(ps);
    }
}

proof fn lemma_all_plain_props(ps: Seq<Prop>)
    requires
        forall|i: int| 0 <= i < ps.len() ==> plain_prop(#[trigger] ps[i]),
    ensures
        plain_prop(all_of(ps)),
        plain_prop(any_of(ps)),
{
    assert forall|a: Structure, b: Structure| #[trigger] agree(
        a,
        b,
    ) implies all_of(ps)(a) == all_of(ps)(b) && any_of(ps)(a) == any_of(ps)(b) by {
        assert forall|i: int| 0 <= i < ps.len() implies (#[trigger] ps[i])(a) == ps[i](b) by {
            assert(plain_prop(ps[i]));
        }
        if any_of(ps)(a) {
            let i = choose|i: int| 0 <= i < ps.len() && (#[trigger] ps[i])(a);
            assert(ps[i](b));
        }
        if any_of(ps)(b) {
            let i = choose|i: int| 0 <= i < ps.len() && (#[trigger] ps[i])(b);
            assert(ps[i](a));
        }
    }
}

/// A view that is true exactly when all views of a list are denotes the conjunction.
proof fn lemma_denotes_all(base: Base, views: Seq<BoolView>, ps: Seq<Prop>, view: BoolView)
    requires
        views_denote(base, views, ps),
        view matches BoolView::Lit(lit) ==> lit.var.0 < base.vars,
        forall|s: Structure, a: Assignment| #[trigger]
            base.good(s, a) ==> view_true(a, view) == views_true(a, views),
    ensures
        view_denotes(base, view, all_of(ps)),
{
    assert forall|i: int| 0 <= i < ps.len() implies base.plain(#[trigger] ps[i]) by {
        assert(view_denotes(base, views[i], ps[i]));
    }
    lemma_all_plain(base, ps);
    assert forall|s: Structure, a: Assignment| #[trigger] base.good(s, a) implies view_true(a, view)
        == all_of(ps)(repaired(s)) by {
        assert forall|i: int| 0 <= i < ps.len() implies view_true(a, #[trigger] views[i]) == ps[i](
            repaired(s),
        ) by {
            assert(view_denotes(base, views[i], ps[i]));
        }
        if all_of(ps)(repaired(s)) {
            assert forall|i: int| 0 <= i < views.len() implies view_true(a, #[trigger] views[i]) by {
                assert(ps[i](repaired(s)));
            }
        }
        if views_true(a, views) {
            assert forall|i: int| 0 <= i < ps.len() implies (#[trigger] ps[i])(repaired(s)) by {
                assert(view_true(a, views[i]));
            }
        }
    }
}

/// A view that is true exactly when some view of a list is denotes the disjunction.
proof fn lemma_denotes_any(base: Base, views: Seq<BoolView>, ps: Seq<Prop>, view: BoolView)
    requires
        views_denote(base, views, ps),
        view matches BoolView::Lit(lit) ==> lit.var.0 < base.vars,
        forall|s: Structure, a: Assignment| #[trigger]
            base.good(s, a) ==> view_true(a, view) == some_view_true(a, views),
    ensures
        view_denotes(base, view, any_of(ps)),
{
    assert forall|i: int| 0 <= i < ps.len() implies base.plain(#[trigger] ps[i]) by {
        assert(view_denotes(base, views[i], ps[i]));
    }
    lemma_all_plain(base, ps);
    assert forall|s: Structure, a: Assignment| #[trigger] base.good(s, a) implies view_true(a, view)
        == any_of(ps)(repaired(s)) by {
        assert forall|i: int| 0 <= i < ps.len() implies view_true(a, #[trigger] views[i]) == ps[i](
            repaired(s),
        ) by {
            assert(view_denotes(base, views[i], ps[i]));
        }
        if any_of(ps)(repaired(s)) {
            let i = choose|i: int| 0 <= i < ps.len() && (#[trigger] ps[i])(repaired(s));
            assert(view_true(a, views[i]));
        }
        if some_view_true(a, views) {
            let i = choose|i: int| 0 <= i < views.len() && view_true(a, #[trigger] views[i]);
            assert(ps[i](repaired(s)));
        }
    }
}

/// The clauses that make `v` the conjunction of `lits`.
pub open spec fn and_clauses(v: Lit, lits: Seq<Lit>) -> Seq<Seq<Lit>> {
    Seq::new(lits.len(), |i: int| seq![v.spec_negate(), lits[i]]).push(
        seq![v] + lits.map_values(|l: Lit| l.spec_negate()),
    )
}

/// The clauses that make `v` the disjunction of `lits`.
pub open spec fn or_clauses(v: Lit, lits: Seq<Lit>) -> Seq<Seq<Lit>> {
    Seq::new(lits.len(), |i: int| seq![v, lits[i].spec_negate()]).push(
        seq![v.spec_negate()] + lits,
    )
}

/// The clauses of a conjunction say that it is one.
pub proof fn lemma_and_clauses(v: Lit, lits: Seq<Lit>, a: Assignment)
    ensures
        clauses_true(a, and_clauses(v, lits)) == (lit_true(a, v) == lits_true(a, lits)),
{
    let cs = and_clauses(v, lits);
    let n = lits.len() as int;
    let last = seq![v] + lits.map_values(|l: Lit| l.spec_negate());
    assert(cs[n] == last);
    assert forall|i: int| 0 <= i < n implies #[trigger] cs[i] == seq![v.spec_negate(), lits[i]] by {}
    if clauses_true(a, cs) {
        if lit_true(a, v) {
            assert forall|i: int| 0 <= i < n implies lit_true(a, #[trigger] lits[i]) by {
                let c = cs[i];
                assert(clause_true(a, c));
                let k = choose|k: int| 0 <= k < c.len() && lit_true(a, #[trigger] c[k]);
                assert(c[0] == v.spec_negate() && c[1] == lits[i]);
            }
        }
        if lits_true(a, lits) {
            assert(clause_true(a, last));
            let k = choose|k: int| 0 <= k < last.len() && lit_true(a, #[trigger] last[k]);
            if k > 0 {
                assert(last[k] == lits[k - 1].spec_negate());
                assert(lit_true(a, lits[k - 1]));
            }
        }
    }
    if lit_true(a, v) == lits_true(a, lits) {
        assert forall|i: int| 0 <= i < cs.len() implies clause_true(a, #[trigger] cs[i]) by {
            if i < n {
                assert(cs[i][0] == v.spec_negate() && cs[i][1] == lits[i]);
                if lit_true(a, v) {
                    assert(lit_true(a, lits[i]));
                    assert(lit_true(a, cs[i][1]));
                } else {
                    assert(lit_true(a, cs[i][0]));
                }
            } else if lit_true(a, v) {
                assert(lit_true(a, last[0]));
            } else {
                let k = choose|k: int| 0 <= k < n && !lit_true(a, #[trigger] lits[k]);
                assert(last[k + 1] == lits[k].spec_negate());
                assert(lit_true(a, last[k + 1]));
            }
        }
    }
}

/// The clauses of a disjunction say that it is one.
pub proof fn lemma_or_clauses(v: Lit, lits: Seq<Lit>, a: Assignment)
    ensures
        clauses_true(a, or_clauses(v, lits)) == (lit_true(a, v) == clause_true(a, lits)),
{
    let cs = or_clauses(v, lits);
    let n = lits.len() as int;
    let last = seq![v.spec_negate()] + lits;
    assert(cs[n] == last);
    assert forall|i: int| 0 <= i < n implies #[trigger] cs[i] == seq![v, lits[i].spec_negate()] by {}
    if clauses_true(a, cs) {
        if lit_true(a, v) {
            assert(clause_true(a, last));
            let k = choose|k: int| 0 <= k < last.len() && lit_true(a, #[trigger] last[k]);
            assert(k > 0);
            assert(last[k] == lits[k - 1]);
            assert(lit_true(a, lits[k - 1]));
        }
        if clause_true(a, lits) {
            let i = choose|i: int| 0 <= i < lits.len() && lit_true(a, #[trigger] lits[i]);
            let c = cs[i];
            assert(clause_true(a, c));
            let k = choose|k: int| 0 <= k < c.len() && lit_true(a, #[trigger] c[k]);
            assert(c[0] == v && c[1] == lits[i].spec_negate());
        }
    }
    if lit_true(a, v) == clause_true(a, lits) {
        assert forall|i: int| 0 <= i < cs.len() implies clause_true(a, #[trigger] cs[i]) by {
            if i < n {
                assert(cs[i][0] == v && cs[i][1] == lits[i].spec_negate());
                if lit_true(a, v) {
                    assert(lit_true(a, cs[i][0]));
                } else {
                    assert(!lit_true(a, lits[i]));
                    assert(lit_true(a, cs[i][1]));
                }
            } else if lit_true(a, v) {
                let k = choose|k: int| 0 <= k < n && lit_true(a, #[trigger] lits[k]);
                assert(last[k + 1] == lits[k]);
                assert(lit_true(a, last[k + 1]));
            } else {
                assert(lit_true(a, last[0]));
            }
        }
    }
}

/// Whether literals over the first `n` variables are true does not depend on other variables.
pub proof fn lemma_lits_below(a: Assignment, b: Assignment, lits: Seq<Lit>, n: nat)
    requires
        lits_below(lits, n),
        same_below(a, b, n),
    ensures
        lits_true(a, lits) == lits_true(b, lits),
        clause_true(a, lits) == clause_true(b, lits),
{
    assert forall|i: int| 0 <= i < lits.len() implies lit_true(a, #[trigger] lits[i]) == lit_true(
        b,
        lits[i],
    ) by {
        assert(a(lits[i].var.0 as int) == b(lits[i].var.0 as int));
    }
    if clause_true(a, lits) {
        let i = choose|i: int| 0 <= i < lits.len() && lit_true(a, #[trigger] lits[i]);
        assert(lit_true(b, lits[i]));
    }
    if clause_true(b, lits) {
        let i = choose|i: int| 0 <= i < lits.len() && lit_true(b, #[trigger] lits[i]);
        assert(lit_true(a, lits[i]));
    }
    if lits_true(a, lits) {
        assert forall|i: int| 0 <= i < lits.len() implies lit_true(b, #[trigger] lits[i]) by {
            assert(lit_true(a, lits[i]));
        }
    }
    if lits_true(b, lits) {
        assert forall|i: int| 0 <= i < lits.len() implies lit_true(a, #[trigger] lits[i]) by {
            assert(lit_true(b, lits[i]));
        }
    }
}

/// Builds the clauses that make `v` the conjunction of `lits`.
pub fn build_and_clauses(v: Lit, lits: &Vec<Lit>) -> (clauses: Vec<Vec<Lit>>)
    ensures
        clause_views(clauses@) == and_clauses(v, lits@),
{
    let mut clauses: Vec<Vec<Lit>> = Vec::new();
    let mut support: Vec<Lit> = Vec::new();
    support.push(v);
    let ghost negs = lits@.map_values(|l: Lit| l.spec_negate());
    let mut i: usize = 0;
    proof {
        assert(support@ =~= seq![v] + negs.take(0));
    }
    while i < lits.len()
        invariant
            0 <= i <= lits.len(),
            negs == lits@.map_values(|l: Lit| l.spec_negate()),
            clauses.len() == i,
            forall|j: int|
                0 <= j < i ==> (#[trigger] clauses[j])@ == seq![v.spec_negate(), lits[j]],
            support@ == seq![v] + negs.take(i as int),
        decreases lits.len() - i,
    {
        let lit = lits[i];
        let mut clause: Vec<Lit> = Vec::new();
        clause.push(v.negate());
        clause.push(lit);
        proof {
            assert(clause@ =~= seq![v.spec_negate(), lit]);
            assert(negs.take(i as int + 1) =~= negs.take(i as int).push(lit.spec_negate()));
            assert(seq![v] + negs.take(i as int + 1) =~= (seq![v] + negs.take(i as int)).push(
                lit.spec_negate(),
            ));
        }
        clauses.push(clause);
        support.push(lit.negate());
        i += 1;
    }
    proof {
        assert(negs.take(i as int) =~= negs);
    }
    clauses.push(support);
    proof {
        assert(clause_views(clauses@) =~= and_clauses(v, lits@));
    }
    clauses
}

/// Builds the clauses that make `v` the disjunction of `lits`.
pub fn build_or_clauses(v: Lit, lits: &Vec<Lit>) -> (clauses: Vec<Vec<Lit>>)
    ensures
        clause_views(clauses@) == or_clauses(v, lits@),
{
    let mut clauses: Vec<Vec<Lit>> = Vec::new();
    let mut support: Vec<Lit> = Vec::new();
    support.push(v.negate());
    let mut i: usize = 0;
    proof {
        assert(support@ =~= seq![v.spec_negate()] + lits@.take(0));
    }
    while i < lits.len()
        invariant
            0 <= i <= lits.len(),
            clauses.len() == i,
            forall|j: int|
                0 <= j < i ==> (#[trigger] clauses[j])@ == seq![v, lits[j].spec_negate()],
            support@ == seq![v.spec_negate()] + lits@.take(i as int),
        decreases lits.len() - i,
    {
        let lit = lits[i];
        let mut clause: Vec<Lit> = Vec::new();
        clause.push(v);
        clause.push(lit.negate());
        proof {
            assert(clause@ =~= seq![v, lit.spec_negate()]);
            assert(lits@.take(i as int + 1) =~= lits@.take(i as int).push(lit));
            assert(seq![v.spec_negate()] + lits@.take(i as int + 1) =~= (seq![v.spec_negate()]
                + lits@.take(i as int)).push(lit));
        }
        clauses.push(clause);
        support.push(lit);
        i += 1;
    }
    proof {
        assert(lits@.take(i as int) =~= lits@);
    }
    clauses.push(support);
    proof {
        assert(clause_views(clauses@) =~= or_clauses(v, lits@));
    }
    clauses
}

impl Driver {
    /// Adding definitions without terms keeps the driver consistent.
    pub proof fn lemma_wf_grow(&self, new: &Driver)
        requires
            self.wf(),
            new.steady(),
            self.grows_to(new),
            new.base().reg.terms.len() == self.base().reg.terms.len(),
        ensures
            new.wf(),
    {
        self.lemma_two_valued_grow(new);
        self.lemma_framed_grow(new);
    }

    /// Introduces a variable for the conjunction of at least two literals.
    fn conjunction(&mut self, lits: &Vec<Lit>) -> (result: Result<Lit, LowerError>)
        requires
            old(self).wf(),
            lits_below(lits@, old(self).base().vars),
        ensures
            final(self).wf(),
            old(self).grows_to(final(self)),
            final(self).used() <= old(self).used() + 16,
            result is Err ==> result->Err_0 is Full && final(self).full(),
            result matches Ok(lit) ==> lit.var.0 < final(self).base().vars && forall|
                s: Structure,
                a: Assignment,
            | #[trigger]
                final(self).base().good(s, a) ==> lit_true(a, lit) == lits_true(a, lits@),
    {
        if !self.has_room() {
            proof {
                self.lemma_grows_refl();
            }
            return Err(LowerError::Full);
        }
        let n = self.sat.num_vars();
        let v = Lit::new(Var(n), false);
        let clauses = build_and_clauses(v, lits);
        let ghost def = |a: Assignment| lits_true(a, lits@);
        let ghost b0 = self.base();
        proof {
            lemma_clauses_in_range(v, lits@, clauses@, b0.vars, true);
            assert forall|a: Assignment| a(b0.vars as int) == #[trigger] def(a) implies clauses_true(
                a,
                clause_views(clauses@),
            ) by {
                lemma_and_clauses(v, lits@, a);
            }
            assert forall|a: Assignment, b: Assignment| same_below(
                a,
                b,
                b0.vars,
            ) implies #[trigger] def(a) == #[trigger] def(b) by {
                lemma_lits_below(a, b, lits@, b0.vars);
            }
        }
        let lit = self.define_variable(&clauses, Ghost(def));
        proof {
            old(self).lemma_wf_grow(self);
            assert forall|s: Structure, a: Assignment| #[trigger] self.base().good(
                s,
                a,
            ) implies lit_true(a, lit) == lits_true(a, lits@) by {
                lemma_and_clauses(v, lits@, a);
            }
        }
        Ok(lit)
    }

    /// Introduces a variable for the disjunction of at least two literals.
    fn disjunction(&mut self, lits: &Vec<Lit>) -> (result: Result<Lit, LowerError>)
        requires
            old(self).wf(),
            lits_below(lits@, old(self).base().vars),
        ensures
            final(self).wf(),
            old(self).grows_to(final(self)),
            final(self).used() <= old(self).used() + 16,
            result is Err ==> result->Err_0 is Full && final(self).full(),
            result matches Ok(lit) ==> lit.var.0 < final(self).base().vars && forall|
                s: Structure,
                a: Assignment,
            | #[trigger]
                final(self).base().good(s, a) ==> lit_true(a, lit) == clause_true(a, lits@),
    {
        if !self.has_room() {
            proof {
                self.lemma_grows_refl();
            }
            return Err(LowerError::Full);
        }
        let n = self.sat.num_vars();
        let v = Lit::new(Var(n), false);
        let clauses = build_or_clauses(v, lits);
        let ghost def = |a: Assignment| clause_true(a, lits@);
        let ghost b0 = self.base();
        proof {
            lemma_clauses_in_range(v, lits@, clauses@, b0.vars, false);
            assert forall|a: Assignment| a(b0.vars as int) == #[trigger] def(a) implies clauses_true(
                a,
                clause_views(clauses@),
            ) by {
                lemma_or_clauses(v, lits@, a);
            }
            assert forall|a: Assignment, b: Assignment| same_below(
                a,
                b,
                b0.vars,
            ) implies #[trigger] def(a) == #[trigger] def(b) by {
                lemma_lits_below(a, b, lits@, b0.vars);
            }
        }
        let lit = self.define_variable(&clauses, Ghost(def));
        proof {
            old(self).lemma_wf_grow(self);
            assert forall|s: Structure, a: Assignment| #[trigger] self.base().good(
                s,
                a,
            ) implies lit_true(a, lit) == clause_true(a, lits@) by {
                lemma_or_clauses(v, lits@, a);
            }
        }
        Ok(lit)
    }

    /// Lowers one conjunction from already lowered Boolean views.
    pub fn lower_and_from_views(&mut self, views: &Vec<BoolView>, Ghost(ps): Ghost<Seq<Prop>>) -> (
        result: Result<BoolView, LowerError>)
        requires
            old(self).wf(),
            views_denote(old(self).base(), views@, ps),
        ensures
            final(self).wf(),
            old(self).grows_to(final(self)),
            final(self).used() <= old(self).used() + 16,
            result matches Ok(view) ==> view_denotes(final(self).base(), view, all_of(ps)),
            result matches Err(error) ==> error is Full && final(self).full(),
    {
        let ghost b0 = self.base();
        let mut filtered: Vec<Lit> = Vec::new();
        let mut i: usize = 0;
        proof {
            self.lemma_grows_refl();
        }
        while i < views.len()
            invariant
                0 <= i <= views.len(),
                *self == *old(self),
                b0 == self.base(),
                self.wf(),
                self.grows_to(self),
                views_denote(b0, views@, ps),
                lits_below(filtered@, b0.vars),
                forall|a: Assignment| #[trigger]
                    views_true(a, views@.take(i as int)) == lits_true(a, filtered@),
            decreases views.len() - i,
        {
            let view = views[i];
            proof {
                assert(view_denotes(b0, views@[i as int], ps[i as int]));
            }
            let ghost before = filtered@;
            match view {
                BoolView::False => {
                    proof {
                        assert forall|s: Structure, a: Assignment| #[trigger] b0.good(
                            s,
                            a,
                        ) implies view_true(a, BoolView::False) == views_true(a, views@) by {
                            assert(!view_true(a, views@[i as int]));
                        }
                        lemma_denotes_all(b0, views@, ps, BoolView::False);
                    }
                    return Ok(BoolView::False);
                },
                BoolView::True => {},
                BoolView::Lit(lit) => {
                    filtered.push(lit);
                },
            }
            proof {
                assert forall|a: Assignment| #[trigger] views_true(a, views@.take(i as int + 1))
                    == lits_true(a, filtered@) by {
                    lemma_views_step(a, views@, i as int);
                    assert(views_true(a, views@.take(i as int)) == lits_true(a, before));
                    if let BoolView::Lit(lit) = view {
                        lemma_lits_push(a, before, lit);
                    }
                }
            }
            i += 1;
        }
        proof {
            assert(views@.take(i as int) =~= views@);
            assert forall|a: Assignment| #[trigger] views_true(a, views@) == lits_true(
                a,
                filtered@,
            ) by {
                assert(views_true(a, views@.take(i as int)) == lits_true(a, filtered@));
            }
        }
        if filtered.len() == 0 {
            proof {
                lemma_denotes_all(b0, views@, ps, BoolView::True);
            }
            return Ok(BoolView::True);
        }
        if filtered.len() == 1 {
            let lit = filtered[0];
            proof {
                assert forall|s: Structure, a: Assignment| #[trigger] b0.good(
                    s,
                    a,
                ) implies view_true(a, BoolView::Lit(lit)) == views_true(a, views@) by {
                    assert(lits_true(a, filtered@) == lit_true(a, filtered@[0]));
                }
                lemma_denotes_all(b0, views@, ps, BoolView::Lit(lit));
            }
            return Ok(BoolView::Lit(lit));
        }
        match self.conjunction(&filtered) {
            Err(error) => Err(error),
            Ok(lit) => {
                proof {
                    lemma_views_grow(old(self), self, views@, ps);
                    assert forall|s: Structure, a: Assignment| #[trigger] self.base().good(
                        s,
                        a,
                    ) implies view_true(a, BoolView::Lit(lit)) == views_true(a, views@) by {
                        assert(lit_true(a, lit) == lits_true(a, filtered@));
                    }
                    lemma_denotes_all(self.base(), views@, ps, BoolView::Lit(lit));
                }
                Ok(BoolView::Lit(lit))
            },
        }
    }

    /// Lowers one disjunction from already lowered Boolean views.
    pub fn lower_or_from_views(&mut self, views: &Vec<BoolView>, Ghost(ps): Ghost<Seq<Prop>>) -> (
        result: Result<BoolView, LowerError>)
        requires
            old(self).wf(),
            views_denote(old(self).base(), views@, ps),
        ensures
            final(self).wf(),
            old(self).grows_to(final(self)),
            final(self).used() <= old(self).used() + 16,
            result matches Ok(view) ==> view_denotes(final(self).base(), view, any_of(ps)),
            result matches Err(error) ==> error is Full && final(self).full(),
    {
        let ghost b0 = self.base();
        let mut filtered: Vec<Lit> = Vec::new();
        let mut i: usize = 0;
        proof {
            self.lemma_grows_refl();
        }
        while i < views.len()
            invariant
                0 <= i <= views.len(),
                *self == *old(self),
                b0 == self.base(),
                self.wf(),
                self.grows_to(self),
                views_denote(b0, views@, ps),
                lits_below(filtered@, b0.vars),
                forall|a: Assignment| #[trigger]
                    some_view_true(a, views@.take(i as int)) == clause_true(a, filtered@),
            decreases views.len() - i,
        {
            let view = views[i];
            proof {
                assert(view_denotes(b0, views@[i as int], ps[i as int]));
            }
            let ghost before = filtered@;
            match view {
                BoolView::True => {
                    proof {
                        assert forall|s: Structure, a: Assignment| #[trigger] b0.good(
                            s,
                            a,
                        ) implies view_true(a, BoolView::True) == some_view_true(a, views@) by {
                            assert(view_true(a, views@[i as int]));
                        }
                        lemma_denotes_any(b0, views@, ps, BoolView::True);
                    }
                    return Ok(BoolView::True);
                },
                BoolView::False => {},
                BoolView::Lit(lit) => {
                    filtered.push(lit);
                },
            }
            proof {
                assert forall|a: Assignment| #[trigger] some_view_true(
                    a,
                    views@.take(i as int + 1),
                ) == clause_true(a, filtered@) by {
                    lemma_views_step(a, views@, i as int);
                    assert(some_view_true(a, views@.take(i as int)) == clause_true(a, before));
                    if let BoolView::Lit(lit) = view {
                        lemma_lits_push(a, before, lit);
                    }
                }
            }
            i += 1;
        }
        proof {
            assert(views@.take(i as int) =~= views@);
            assert forall|a: Assignment| #[trigger] some_view_true(a, views@) == clause_true(
                a,
                filtered@,
            ) by {
                assert(some_view_true(a, views@.take(i as int)) == clause_true(a, filtered@));
            }
        }
        if filtered.len() == 0 {
            proof {
                lemma_denotes_any(b0, views@, ps, BoolView::False);
            }
            return Ok(BoolView::False);
        }
        if filtered.len() == 1 {
            let lit = filtered[0];
            proof {
                assert forall|s: Structure, a: Assignment| #[trigger] b0.good(
                    s,
                    a,
                ) implies view_true(a, BoolView::Lit(lit)) == some_view_true(a, views@) by {
                    assert(clause_true(a, filtered@) == lit_true(a, filtered@[0]));
                }
                lemma_denotes_any(b0, views@, ps, BoolView::Lit(lit));
            }
            return Ok(BoolView::Lit(lit));
        }
        match self.disjunction(&filtered) {
            Err(error) => Err(error),
            Ok(lit) => {
                proof {
                    lemma_views_grow(old(self), self, views@, ps);
                    assert forall|s: Structure, a: Assignment| #[trigger] self.base().good(
                        s,
                        a,
                    ) implies view_true(a, BoolView::Lit(lit)) == some_view_true(a, views@) by {
                        assert(lit_true(a, lit) == clause_true(a, filtered@));
                    }
                    lemma_denotes_any(self.base(), views@, ps, BoolView::Lit(lit));
                }
                Ok(BoolView::Lit(lit))
            },
        }
    }

    /// Lowers Boolean xor.
    pub fn lower_xor(
        &mut self,
        lhs: BoolView,
        rhs: BoolView,
        Ghost(p): Ghost<Prop>,
        Ghost(q): Ghost<Prop>,
    ) -> (result: Result<BoolView, LowerError>)
        requires
            old(self).wf(),
            view_denotes(old(self).base(), lhs, p),
            view_denotes(old(self).base(), rhs, q),
        ensures
            final(self).wf(),
            old(self).grows_to(final(self)),
            final(self).used() <= old(self).used() + 16,
            result matches Ok(view) ==> view_denotes(
                final(self).base(),
                view,
                (|s: Structure| p(s) != q(s)),
            ),
            result matches Err(error) ==> error is Full && final(self).full(),
    {
        let ghost xor = |s: Structure| p(s) != q(s);
        proof {
            self.lemma_grows_refl();
            lemma_xor_plain(self.base(), p, q);
        }
        match (lhs, rhs) {
            (BoolView::True, view) => {
                let result = negate_view(view);
                proof {
                    lemma_xor_constant(self.base(), lhs, rhs, result, p, q);
                }
                Ok(result)
            },
            (view, BoolView::True) => {
                let result = negate_view(view);
                proof {
                    lemma_xor_constant(self.base(), lhs, rhs, result, p, q);
                }
                Ok(result)
            },
            (BoolView::False, view) => {
                proof {
                    lemma_xor_constant(self.base(), lhs, rhs, view, p, q);
                }
                Ok(view)
            },
            (view, BoolView::False) => {
                proof {
                    lemma_xor_constant(self.base(), lhs, rhs, view, p, q);
                }
                Ok(view)
            },
            (BoolView::Lit(l), BoolView::Lit(r)) => {
                if !self.has_room() {
                    return Err(LowerError::Full);
                }
                let ghost b0 = self.base();
                let n = self.sat.num_vars();
                let v = Lit::new(Var(n), false);
                let mut clauses: Vec<Vec<Lit>> = Vec::new();
                clauses.push(clause3(l.negate(), r.negate(), v.negate()));
                clauses.push(clause3(l, r, v.negate()));
                clauses.push(clause3(l, r.negate(), v));
                clauses.push(clause3(l.negate(), r, v));
                let ghost def = |a: Assignment| lit_true(a, l) != lit_true(a, r);
                proof {
                    assert(clause_views(clauses@) =~= xor_clauses(v, l, r));
                    assert forall|i: int| 0 <= i < clauses@.len() implies lits_below(
                        (#[trigger] clauses@[i])@,
                        b0.vars + 1,
                    ) by {}
                    assert forall|a: Assignment| a(b0.vars as int) == #[trigger] def(
                        a,
                    ) implies clauses_true(a, clause_views(clauses@)) by {
                        lemma_xor_clauses(v, l, r, a);
                    }
                    assert forall|a: Assignment, b: Assignment| same_below(
                        a,
                        b,
                        b0.vars,
                    ) implies #[trigger] def(a) == #[trigger] def(b) by {
                        assert(a(l.var.0 as int) == b(l.var.0 as int));
                        assert(a(r.var.0 as int) == b(r.var.0 as int));
                    }
                }
                let lit = self.define_variable(&clauses, Ghost(def));
                proof {
                    old(self).lemma_wf_grow(self);
                    old(self).lemma_view_grow(self, lhs, p);
                    old(self).lemma_view_grow(self, rhs, q);
                    assert forall|s: Structure, a: Assignment| #[trigger] self.base().good(
                        s,
                        a,
                    ) implies view_true(a, BoolView::Lit(lit)) == xor(repaired(s)) by {
                        lemma_xor_clauses(v, l, r, a);
                        assert(view_true(a, lhs) == p(repaired(s)));
                        assert(view_true(a, rhs) == q(repaired(s)));
                    }
                }
                Ok(BoolView::Lit(lit))
            },
        }
    }

    /// Lowers Boolean equivalence.
    pub fn lower_bool_equiv(
        &mut self,
        lhs: BoolView,
        rhs: BoolView,
        Ghost(p): Ghost<Prop>,
        Ghost(q): Ghost<Prop>,
    ) -> (result: Result<BoolView, LowerError>)
        requires
            old(self).wf(),
            view_denotes(old(self).base(), lhs, p),
            view_denotes(old(self).base(), rhs, q),
        ensures
            final(self).wf(),
            old(self).grows_to(final(self)),
            final(self).used() <= old(self).used() + 16,
            result matches Ok(view) ==> view_denotes(
                final(self).base(),
                view,
                (|s: Structure| p(s) == q(s)),
            ),
            result matches Err(error) ==> error is Full && final(self).full(),
    {
        let ghost equiv = |s: Structure| p(s) == q(s);
        match self.lower_xor(lhs, rhs, Ghost(p), Ghost(q)) {
            Err(error) => Err(error),
            Ok(view) => {
                let result = negate_view(view);
                proof {
                    let xor = |s: Structure| p(s) != q(s);
                    assert(view_denotes(self.base(), view, xor));
                    lemma_xor_plain(self.base(), p, q);
                    assert forall|s: Structure, a: Assignment| #[trigger] self.base().good(
                        s,
                        a,
                    ) implies view_true(a, result) == equiv(repaired(s)) by {
                        assert(view_true(a, view) == xor(repaired(s)));
                    }
                }
                Ok(result)
            },
        }
    }

    /// Nothing has been added yet.
    pub proof fn lemma_grows_refl(&self)
        ensures
            self.grows_to(self),
    {
    }
}

/// Returns the clause of three literals.
fn clause3(a: Lit, b: Lit, c: Lit) -> (clause: Vec<Lit>)
    ensures
        clause@ == seq![a, b, c],
{
    let mut clause: Vec<Lit> = Vec::new();
    clause.push(a);
    clause.push(b);
    clause.push(c);
    proof {
        assert(clause@ =~= seq![a, b, c]);
    }
    clause
}

/// The clauses that make `v` true exactly when one of `l` and `r` is.
pub open spec fn xor_clauses(v: Lit, l: Lit, r: Lit) -> Seq<Seq<Lit>> {
    seq![
        seq![l.spec_negate(), r.spec_negate(), v.spec_negate()],
        seq![l, r, v.spec_negate()],
        seq![l, r.spec_negate(), v],
        seq![l.spec_negate(), r, v],
    ]
}

proof fn lemma_clause3(a: Assignment, x: Lit, y: Lit, z: Lit)
    ensures
        clause_true(a, seq![x, y, z]) == (lit_true(a, x) || lit_true(a, y) || lit_true(a, z)),
{
    let c = seq![x, y, z];
    assert(c[0] == x && c[1] == y && c[2] == z);
    if clause_true(a, c) {
        let k = choose|k: int| 0 <= k < c.len() && lit_true(a, #[trigger] c[k]);
    }
    if lit_true(a, x) {
        assert(lit_true(a, c[0]));
    }
    if lit_true(a, y) {
        assert(lit_true(a, c[1]));
    }
    if lit_true(a, z) {
        assert(lit_true(a, c[2]));
    }
}

/// The clauses of an exclusive disjunction say that it is one.
pub proof fn lemma_xor_clauses(v: Lit, l: Lit, r: Lit, a: Assignment)
    ensures
        clauses_true(a, xor_clauses(v, l, r)) == (lit_true(a, v) == (lit_true(a, l) != lit_true(
            a,
            r,
        ))),
{
    let cs = xor_clauses(v, l, r);
    lemma_clause3(a, l.spec_negate(), r.spec_negate(), v.spec_negate());
    lemma_clause3(a, l, r, v.spec_negate());
    lemma_clause3(a, l, r.spec_negate(), v);
    lemma_clause3(a, l.spec_negate(), r, v);
    assert(cs.len() == 4);
    if clauses_true(a, cs) {
        assert(clause_true(a, cs[0]) && clause_true(a, cs[1]) && clause_true(a, cs[2])
            && clause_true(a, cs[3]));
    }
}

proof fn lemma_xor_plain(base: Base, p: Prop, q: Prop)
    requires
        base.plain(p),
        base.plain(q),
    ensures
        base.plain((|s: Structure| p(s) != q(s))),
        base.plain((|s: Structure| p(s) == q(s))),
{
    let xor = |s: Structure| p(s) != q(s);
    let equiv = |s: Structure| p(s) == q(s);
    if base.clean {
        assert forall|a: Structure, b: Structure| #[trigger] agree(a, b) implies xor(a) == xor(b)
            && equiv(a) == equiv(b) by {
            assert(p(a) == p(b) && q(a) == q(b));
        }
    }
}

proof fn lemma_xor_constant(
    base: Base,
    lhs: BoolView,
    rhs: BoolView,
    result: BoolView,
    p: Prop,
    q: Prop,
)
    requires
        view_denotes(base, lhs, p),
        view_denotes(base, rhs, q),
        lhs == BoolView::True && result == negated(rhs) || rhs == BoolView::True && result
            == negated(lhs) || lhs == BoolView::False && result == rhs || rhs == BoolView::False
            && result == lhs,
    ensures
        view_denotes(base, result, (|s: Structure| p(s) != q(s))),
{
    let xor = |s: Structure| p(s) != q(s);
    lemma_xor_plain(base, p, q);
    assert forall|s: Structure, a: Assignment| #[trigger] base.good(s, a) implies view_true(
        a,
        result,
    ) == xor(repaired(s)) by {
        assert(view_true(a, lhs) == p(repaired(s)));
        assert(view_true(a, rhs) == q(repaired(s)));
    }
}

proof fn lemma_views_step(a: Assignment, views: Seq<BoolView>, i: int)
    requires
        0 <= i < views.len(),
    ensures
        views_true(a, views.take(i + 1)) == (views_true(a, views.take(i)) && view_true(a, views[i])),
        some_view_true(a, views.take(i + 1)) == (some_view_true(a, views.take(i)) || view_true(
            a,
            views[i],
        )),
{
    let x = views.take(i);
    let y = views.take(i + 1);
    assert(y[i] == views[i]);
    assert forall|j: int| 0 <= j < i implies x[j] == y[j] by {}
    if views_true(a, y) {
        assert(view_true(a, y[i]));
        assert forall|j: int| 0 <= j < i implies view_true(a, #[trigger] x[j]) by {
            assert(view_true(a, y[j]));
        }
    }
    if views_true(a, x) && view_true(a, views[i]) {
        assert forall|j: int| 0 <= j < y.len() implies view_true(a, #[trigger] y[j]) by {
            if j < i {
                assert(view_true(a, x[j]));
            }
        }
    }
    if some_view_true(a, y) {
        let j = choose|j: int| 0 <= j < y.len() && view_true(a, #[trigger] y[j]);
        if j < i {
            assert(view_true(a, x[j]));
        }
    }
    if some_view_true(a, x) {
        let j = choose|j: int| 0 <= j < x.len() && view_true(a, #[trigger] x[j]);
        assert(view_true(a, y[j]));
    }
}

/// How the truth of literals changes with one more.
pub proof fn lemma_lits_push(a: Assignment, lits: Seq<Lit>, lit: Lit)
    ensures
        lits_true(a, lits.push(lit)) == (lits_true(a, lits) && lit_true(a, lit)),
        clause_true(a, lits.push(lit)) == (clause_true(a, lits) || lit_true(a, lit)),
{
    let more = lits.push(lit);
    let n = lits.len() as int;
    assert(more[n] == lit);
    if lits_true(a, more) {
        assert(lit_true(a, more[n]));
        assert forall|j: int| 0 <= j < n implies lit_true(a, #[trigger] lits[j]) by {
            assert(lit_true(a, more[j]));
        }
    }
    if lits_true(a, lits) && lit_true(a, lit) {
        assert forall|j: int| 0 <= j < more.len() implies lit_true(a, #[trigger] more[j]) by {
            if j < n {
                assert(lit_true(a, lits[j]));
            }
        }
    }
    if clause_true(a, more) {
        let j = choose|j: int| 0 <= j < more.len() && lit_true(a, #[trigger] more[j]);
        if j < n {
            assert(lit_true(a, lits[j]));
        }
    }
    if clause_true(a, lits) {
        let j = choose|j: int| 0 <= j < lits.len() && lit_true(a, #[trigger] lits[j]);
        assert(lit_true(a, more[j]));
    }
    if lit_true(a, lit) {
        assert(lit_true(a, more[n]));
    }
}

/// The defining clauses use the literals and the new variable only.
pub proof fn lemma_clauses_in_range(
    v: Lit,
    lits: Seq<Lit>,
    clauses: Seq<Vec<Lit>>,
    n: nat,
    conjunction: bool,
)
    requires
        v.var.0 == n,
        lits_below(lits, n),
        clause_views(clauses) == if conjunction {
            and_clauses(v, lits)
        } else {
            or_clauses(v, lits)
        },
    ensures
        forall|i: int| 0 <= i < clauses.len() ==> lits_below((#[trigger] clauses[i])@, n + 1),
{
    let views = clause_views(clauses);
    assert forall|i: int| 0 <= i < clauses.len() implies lits_below(
        (#[trigger] clauses[i])@,
        n + 1,
    ) by {
        assert(views[i] == clauses[i]@);
        let c = clauses[i]@;
        if i < lits.len() {
            assert(c.len() == 2);
            assert forall|k: int| 0 <= k < c.len() implies (#[trigger] c[k]).var.0 < n + 1 by {
                assert(lits[i].var.0 < n);
            }
        } else {
            assert(views.len() == clauses.len());
            assert(i == lits.len());
            assert(c == if conjunction {
                seq![v] + lits.map_values(|l: Lit| l.spec_negate())
            } else {
                seq![v.spec_negate()] + lits
            });
            assert(c.len() == lits.len() + 1);
            assert forall|k: int| 0 <= k < c.len() implies (#[trigger] c[k]).var.0 < n + 1 by {
                if k > 0 {
                    assert(lits[k - 1].var.0 < n);
                }
            }
        }
    }
}

/// Lists of views keep their meaning when definitions are added.
pub proof fn lemma_views_grow(d: &Driver, new: &Driver, views: Seq<BoolView>, ps: Seq<Prop>)
    requires
        d.base().ok(),
        new.base().ok(),
        d.base().extends_to(new.base()),
        views_denote(d.base(), views, ps),
    ensures
        views_denote(new.base(), views, ps),
{
    assert forall|i: int| 0 <= i < views.len() implies view_denotes(
        new.base(),
        #[trigger] views[i],
        ps[i],
    ) by {
        d.lemma_view_grow(new, views[i], ps[i]);
    }
}

} // verus!
