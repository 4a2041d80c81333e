//! The incremental solver driver: declarations, definitions and asserted formulas.

use crate::euf::ids::{SortId, SymbolId, TermId};
use crate::euf::registry::{ordered, SortView};
use crate::euf::theory::EufTheory;
use crate::qfuf::denote::{
    false_sig, falsity, holds, true_sig, truth, two_valued, Funs, Prop, Sig, Structure, Val,
};
use crate::qfuf::models::{
    boolean_val, extended, internal, interp_of, repaired, same_below, sig_of, Base,
};
use crate::sat::{
    clause_true, clause_views, clause_words, clauses_true, lit_true, lits_below, long_clauses,
    Assignment, Lit, Solver, Var,
};
use crate::semantics::{lemma_value_unfold, value, values};
use crate::text::decimal_text;
use vstd::hash_map::StringHashMap;
use crate::telemetry::{counted, Gauges, SatGauges};
use vstd::prelude::*;

verus! {

/// One lowered Boolean subexpression.
#[derive(Debug, Clone, Copy, PartialEq, Eq, Structural)]
pub enum BoolView {
    /// Constant true.
    True,
    /// Constant false.
    False,
    /// Existing literal.
    Lit(Lit),
}

/// One local `let` binding visible while lowering one expression subtree.
#[derive(Debug, Clone, Copy, PartialEq, Eq, Structural)]
pub enum LocalBinding {
    /// One Boolean binding.
    Bool(BoolView),
    /// One term binding as a canonical term and its sort.
    Term {
        /// Canonical term identifier.
        term: TermId,
        /// Sort of the cached term.
        sort: SortId,
    },
}

/// One declared function symbol.
#[derive(Debug, Clone, Copy, PartialEq, Eq, Structural)]
pub struct FunDecl {
    /// Canonical symbol identifier.
    pub symbol: SymbolId,
    /// Declared argument count.
    pub arity: u32,
    /// Result sort.
    pub result_sort: SortId,
}

/// Why an expression was not lowered.
pub enum LowerError {
    /// The expression is not accepted, for this reason.
    Text(String),
    /// A handle space is used up.
    Full,
}

/// The truth value of a view under an assignment.
pub open spec fn view_true(a: Assignment, view: BoolView) -> bool {
    match view {
        BoolView::True => true,
        BoolView::False => false,
        BoolView::Lit(lit) => lit_true(a, lit),
    }
}

/// The negation of a view.
pub open spec fn negated(view: BoolView) -> BoolView {
    match view {
        BoolView::True => BoolView::False,
        BoolView::False => BoolView::True,
        BoolView::Lit(lit) => BoolView::Lit(lit.spec_negate()),
    }
}

/// Negates one lowered Boolean view.
pub fn negate_view(view: BoolView) -> (result: BoolView)
    ensures
        result == negated(view),
        forall|a: Assignment| #[trigger] view_true(a, result) == !view_true(a, view),
{
    match view {
        BoolView::True => BoolView::False,
        BoolView::False => BoolView::True,
        BoolView::Lit(lit) => BoolView::Lit(lit.negate()),
    }
}

/// Negating a view twice gives it back.
pub proof fn lemma_negated_twice(view: BoolView)
    ensures
        negated(negated(view)) == view,
{
}

/// Wherever the definitions hold, the view is true exactly when `p` holds.
pub open spec fn view_denotes(base: Base, view: BoolView, p: Prop) -> bool {
    &&& base.plain(p)
    &&& view matches BoolView::Lit(lit) ==> lit.var.0 < base.vars
    &&& forall|s: Structure, a: Assignment| #[trigger]
        base.good(s, a) ==> view_true(a, view) == p(repaired(s))
}

/// The `n`-th name for introduced constants. It holds a space, which no token of a script does, so
/// that no script can declare it.
pub open spec fn fresh_name(n: nat) -> Seq<char> {
    "|@qfuf "@ + decimal_text(n) + "|"@
}

/// One incremental solver driver.
pub struct Driver {
    /// Incremental clause store and search.
    pub sat: Solver,
    /// Theory of equality.
    pub euf: EufTheory,
    /// Declared sort environment.
    pub sorts: StringHashMap<SortId>,
    /// Declared function environment.
    pub funs: StringHashMap<FunDecl>,
    /// The Boolean sort.
    pub bool_sort: SortId,
    /// The canonical true term.
    pub true_term: TermId,
    /// The canonical false term.
    pub false_term: TermId,
    /// Lexically scoped `let` bindings used while lowering one expression.
    pub let_scopes: Vec<StringHashMap<LocalBinding>>,
    /// Monotonic counter for internally introduced fresh constants.
    pub fresh_const_counter: u64,
    /// Values of the introduced constants.
    pub fresh: Ghost<Map<Sig, Val>>,
    /// No declared name looks like the name of an introduced constant.
    pub clean: Ghost<bool>,
    /// Declared function symbols.
    pub decls: Ghost<Funs>,
    /// Asserted formulas of the outermost and all open scopes.
    pub frames: Ghost<Seq<Seq<Prop>>>,
}

/// All asserted formulas hold in the structure.
pub open spec fn frames_hold(frames: Seq<Seq<Prop>>, s: Structure) -> bool {
    forall|i: int, j: int|
        0 <= i < frames.len() && 0 <= j < frames[i].len() ==> (#[trigger] frames[i][j])(s)
}

/// Some two-valued structure satisfies all asserted formulas.
pub open spec fn frames_satisfiable(frames: Seq<Seq<Prop>>) -> bool {
    exists|s: Structure| two_valued(s) && #[trigger] frames_hold(frames, s)
}

impl Driver {
    /// Everything that definitions are made of.
    pub open spec fn base(&self) -> Base {
        Base {
            reg: self.euf.interned(),
            bindings: self.euf.bindings(),
            rooted: self.sat.rooted(),
            vars: self.sat.var_count(),
            fresh: self.fresh@,
            clean: self.clean@,
        }
    }

    /// Term `t` is the constant `sig` of sort Bool.
    pub open spec fn is_constant(&self, t: TermId, sig: Sig) -> bool {
        let reg = self.euf.interned();
        &&& t.0 < reg.terms.len()
        &&& reg.terms[t.0 as int].args.len() == 0
        &&& sig_of(reg, reg.symbols[reg.terms[t.0 as int].fun]) == sig
        &&& reg.term_sorts[t.0 as int] == self.bool_sort
    }

    /// The executable declarations are the mathematical ones.
    pub open spec fn declared(&self) -> bool {
        let reg = self.euf.interned();
        &&& forall|name: Seq<char>| #[trigger]
            self.sorts@.contains_key(name) ==> self.sorts@[name].0 < reg.sorts.len()
                && reg.sorts[self.sorts@[name].0 as int] == SortView::Named(name)
        &&& self.funs@.dom() == self.decls@.dom()
        &&& forall|name: Seq<char>| #[trigger]
            self.funs@.contains_key(name) ==> self.fun_ok(name)
    }

    /// The declaration of `name` is the mathematical one.
    pub open spec fn fun_ok(&self, name: Seq<char>) -> bool {
        let reg = self.euf.interned();
        let decl = self.funs@[name];
        &&& decl.symbol.0 < reg.symbols.len()
        &&& sig_of(reg, reg.symbols[decl.symbol.0 as int]) == self.decls@[name]
        &&& self.decls@[name].name == name
        &&& decl.arity == self.decls@[name].args.len()
        &&& decl.result_sort == reg.symbols[decl.symbol.0 as int].result_sort
        &&& self.clean@ ==> !internal(name)
    }

    /// Every symbol with the name of an introduced constant is one.
    pub open spec fn fresh_names(&self) -> bool {
        let reg = self.euf.interned();
        self.clean@ ==> forall|f: int|
            0 <= f < reg.symbols.len() && internal((#[trigger] reg.symbols[f]).name)
                ==> self.used_name(reg.symbols[f].name)
    }

    /// The name has been given to an introduced constant.
    pub open spec fn used_name(&self, name: Seq<char>) -> bool {
        exists|n: nat| n < self.fresh_const_counter && name == #[trigger] fresh_name(n)
    }

    /// The parts fit each other, and definitions rule nothing out.
    pub open spec fn steady(&self) -> bool {
        &&& self.sat.wf()
        &&& self.euf.wf()
        &&& self.base().ok()
        &&& self.base().realizable()
        &&& self.bool_sort.0 < self.euf.interned().sorts.len()
        &&& self.euf.interned().sorts[self.bool_sort.0 as int] == SortView::Bool
        &&& self.is_constant(self.true_term, true_sig())
        &&& self.is_constant(self.false_term, false_sig())
        &&& self.declared()
        &&& self.fresh_names()
    }

    /// Definitions make term `t` equal to truth or falsity.
    pub open spec fn domain_ok(&self, t: int) -> bool {
        forall|s: Structure, a: Assignment| #[trigger]
            self.base().good(s, a) ==> self.base().value(s, t) == truth(s) || self.base().value(
                s,
                t,
            ) == falsity(s)
    }

    /// Definitions make all terms of sort Bool equal to truth or falsity, which differ.
    pub open spec fn two_valued_terms(&self) -> bool {
        &&& self.base().separated()
        &&& forall|t: int|
            0 <= t < self.base().reg.terms.len() && self.base().sort(t) == SortView::Bool
                ==> #[trigger] self.domain_ok(t)
    }

    /// The end of the clauses that belong to frame `k` and the frames around it.
    pub open spec fn frame_end(&self, k: int) -> int {
        if k < self.sat.scope_starts().len() {
            self.sat.scope_starts()[k] as int
        } else {
            self.sat.scoped().len() as int
        }
    }

    /// Wherever definitions hold, the clauses up to frame `k` are true exactly when its formulas hold.
    pub open spec fn frame_ok(&self, k: int) -> bool {
        forall|s: Structure, a: Assignment| #[trigger]
            self.base().good(s, a) ==> (frames_hold(self.frames@.take(k + 1), repaired(s))
                <==> clauses_true(a, self.sat.scoped().take(self.frame_end(k))))
    }

    /// The scoped clauses say what the asserted formulas say.
    pub open spec fn framed(&self) -> bool {
        &&& self.frames@.len() == self.sat.scope_starts().len() + 1
        &&& forall|k: int| 0 <= k < self.frames@.len() ==> #[trigger] self.frame_ok(k)
        &&& forall|i: int, j: int|
            0 <= i < self.frames@.len() && 0 <= j < self.frames@[i].len() ==> self.base().plain(
                #[trigger] self.frames@[i][j],
            )
    }

    /// The driver is consistent.
    pub open spec fn wf(&self) -> bool {
        &&& self.steady()
        &&& self.two_valued_terms()
        &&& self.framed()
    }

    /// Some handle space is used up, but for the handles that one step takes.
    pub open spec fn full(&self) -> bool {
        ||| self.euf.interned().sorts.len() >= 0xFFFF_FFFE
        ||| self.euf.interned().symbols.len() >= 0xFFFF_FFFE
        ||| self.euf.interned().terms.len() >= 0x7FFF_FFFE
        ||| self.euf.interned().atoms.len() >= 0xFFFF_FFFB
        ||| self.sat.var_count() >= 0xFFFF_FFFB
        ||| self.fresh_const_counter >= 0xFFFF_FFFF_FFFF_FFFE
    }

    /// The number of handles that are in use.
    pub open spec fn used(&self) -> nat {
        let reg = self.euf.interned();
        reg.sorts.len() + reg.symbols.len() + reg.terms.len() + reg.atoms.len()
            + self.sat.var_count() + self.fresh_const_counter as nat
    }

    /// A full driver uses many handles.
    pub proof fn lemma_full(&self)
        requires
            self.full(),
        ensures
            self.used() >= 0x7FFF_FFFE,
    {
    }

    /// Captures the current gauges for one telemetry sample boundary.
    pub fn telemetry_gauges(&self) -> (gauges: Gauges)
        requires
            self.euf.wf(),
        ensures
            gauges.euf.registry_terms == self.euf.interned().terms.len(),
            gauges.euf.registry_atoms == self.euf.interned().atoms.len(),
            gauges.euf.pending_assignments == self.euf.backlog().0,
            gauges.euf.pending_theory_clauses == self.euf.backlog().1,
            gauges.euf.pending_merges == self.euf.backlog().2,
            gauges.euf.pending_repairs == self.euf.backlog().3,
            gauges.euf.pending_atom_triggers == self.euf.backlog().4,
            gauges.euf.assigned_atoms == self.euf.holdings().0,
            gauges.euf.active_disequalities == self.euf.holdings().1,
            gauges.euf.congruence_table_entries == self.euf.holdings().2,
            gauges.euf.proof_edges == self.euf.holdings().3,
            gauges.sat == (SatGauges {
                decision_level: 0,
                assigned_vars: 0,
                trail_len: 0,
                pending_propagations: 0,
                live_irredundant_clauses: counted(
                    0,
                    (long_clauses(self.sat.rooted()) + long_clauses(self.sat.scoped())) as int,
                ),
                live_learnt_clauses: 0,
                watcher_entries: 0,
                clause_words: counted(
                    0,
                    (clause_words(self.sat.rooted()) + clause_words(self.sat.scoped())) as int,
                ),
                wasted_clause_words: 0,
            }),
    {
        Gauges { sat: self.sat.telemetry_gauges(), euf: self.euf.telemetry_gauges() }
    }

    /// Only definitions have been added.
    pub open spec fn grows_to(&self, new: &Driver) -> bool {
        &&& self.base().extends_to(new.base())
        &&& new.sat.scoped() == self.sat.scoped()
        &&& new.sat.scope_starts() == self.sat.scope_starts()
        &&& new.sorts == self.sorts
        &&& new.funs == self.funs
        &&& new.bool_sort == self.bool_sort
        &&& new.true_term == self.true_term
        &&& new.false_term == self.false_term
        &&& new.let_scopes@ == self.let_scopes@
        &&& new.decls == self.decls
        &&& new.frames == self.frames
        &&& new.clean == self.clean
        &&& self.fresh_const_counter <= new.fresh_const_counter
    }

    /// Adding definitions twice is adding definitions.
    pub proof fn lemma_grows_trans(&self, mid: &Driver, new: &Driver)
        requires
            self.base().ok(),
            self.grows_to(mid),
            mid.grows_to(new),
        ensures
            self.grows_to(new),
    {
        self.base().lemma_extends_trans(mid.base(), new.base());
    }

    /// What has been declared stays declared when definitions are added.
    pub proof fn lemma_declared_grow(&self, new: &Driver)
        requires
            self.steady(),
            new.base().ok(),
            self.grows_to(new),
        ensures
            new.declared(),
            new.is_constant(new.true_term, true_sig()),
            new.is_constant(new.false_term, false_sig()),
            new.bool_sort.0 < new.euf.interned().sorts.len(),
            new.euf.interned().sorts[new.bool_sort.0 as int] == SortView::Bool,
    {
        let reg = self.euf.interned();
        let more = new.euf.interned();
        assert(more.sorts[self.bool_sort.0 as int] == reg.sorts[self.bool_sort.0 as int]);
        assert forall|f: int| 0 <= f < reg.symbols.len() implies sig_of(
            reg,
            #[trigger] reg.symbols[f],
        ) == sig_of(more, more.symbols[f]) by {
            assert(self.base().symbol_ok(f));
            let x = sig_of(reg, reg.symbols[f]);
            let y = sig_of(more, more.symbols[f]);
            assert(more.symbols[f] == reg.symbols[f]);
            assert(x.args =~= y.args);
        }
        assert forall|t: int| 0 <= t < reg.terms.len() implies more.terms[t] == reg.terms[t]
            && more.term_sorts[t] == reg.term_sorts[t] && 0 <= (#[trigger] reg.terms[t]).fun
            < reg.symbols.len() by {
            assert(reg.well_sorted(t));
            assert(more.terms[t] == reg.terms[t]);
            assert(more.term_sorts[t] == reg.term_sorts[t]);
        }
        let tt = self.true_term.0 as int;
        let ft = self.false_term.0 as int;
        assert(reg.symbols[reg.terms[tt].fun] == more.symbols[reg.terms[tt].fun]);
        assert(reg.symbols[reg.terms[ft].fun] == more.symbols[reg.terms[ft].fun]);
        assert forall|name: Seq<char>| #[trigger] new.sorts@.contains_key(name) implies new.sorts@[name].0
            < more.sorts.len() && more.sorts[new.sorts@[name].0 as int] == SortView::Named(
            name,
        ) by {
            assert(self.sorts@.contains_key(name));
            assert(more.sorts[self.sorts@[name].0 as int] == reg.sorts[self.sorts@[name].0 as int]);
        }
        assert forall|name: Seq<char>| #[trigger] new.funs@.contains_key(name) implies new.fun_ok(
            name,
        ) by {
            assert(self.fun_ok(name));
            let f = self.funs@[name].symbol.0 as int;
            assert(more.symbols[f] == reg.symbols[f]);
        }
    }

    /// No name is given away when no symbol is added.
    pub proof fn lemma_fresh_names_same(&self, new: &Driver)
        requires
            self.fresh_names(),
            new.euf.interned().symbols == self.euf.interned().symbols,
            new.clean == self.clean,
            self.fresh_const_counter <= new.fresh_const_counter,
        ensures
            new.fresh_names(),
    {
        let reg = self.euf.interned();
        if new.clean@ {
            assert forall|f: int|
                0 <= f < reg.symbols.len() && internal(
                    (#[trigger] reg.symbols[f]).name,
                ) implies new.used_name(reg.symbols[f].name) by {
                assert(self.used_name(reg.symbols[f].name));
                let n = choose|n: nat|
                    n < self.fresh_const_counter && reg.symbols[f].name == #[trigger] fresh_name(n);
                assert(fresh_name(n) == reg.symbols[f].name);
            }
        }
    }

    /// Two-valued terms stay so when definitions are added.
    pub proof fn lemma_domain_grow(&self, new: &Driver, t: int)
        requires
            self.base().ok(),
            new.base().ok(),
            self.base().extends_to(new.base()),
            0 <= t < self.base().reg.terms.len(),
            self.domain_ok(t),
        ensures
            new.domain_ok(t),
    {
        assert forall|s: Structure, a: Assignment| #[trigger] new.base().good(s, a) implies new.base().value(
            s,
            t,
        ) == truth(s) || new.base().value(s, t) == falsity(s) by {
            self.base().lemma_good_smaller(new.base(), s, a);
            self.base().lemma_value_same(new.base(), s, t);
        }
    }

    /// Two-valued terms stay so when definitions are added and no terms are.
    pub proof fn lemma_two_valued_grow(&self, new: &Driver)
        requires
            self.base().ok(),
            new.base().ok(),
            self.base().extends_to(new.base()),
            self.base().reg.terms.len() == new.base().reg.terms.len(),
            self.two_valued_terms(),
        ensures
            new.two_valued_terms(),
    {
        self.base().lemma_separated_grow(new.base());
        assert forall|t: int|
            0 <= t < new.base().reg.terms.len() && new.base().sort(t)
                == SortView::Bool implies #[trigger] new.domain_ok(t) by {
            assert(new.base().reg.term_sorts[t] == self.base().reg.term_sorts[t]);
            assert(self.base().reg.term_sorts[t].0 < self.base().reg.sorts.len());
            assert(self.base().sort(t) == SortView::Bool);
            self.lemma_domain_grow(new, t);
        }
    }

    /// Frames keep their meaning when definitions are added.
    pub proof fn lemma_framed_grow(&self, new: &Driver)
        requires
            self.base().ok(),
            new.base().ok(),
            self.grows_to(new),
            self.framed(),
        ensures
            new.framed(),
    {
        assert forall|k: int| 0 <= k < new.frames@.len() implies #[trigger] new.frame_ok(k) by {
            assert(self.frame_ok(k));
            assert forall|s: Structure, a: Assignment| #[trigger]
                new.base().good(s, a) implies (frames_hold(new.frames@.take(k + 1), repaired(s))
                <==> clauses_true(a, new.sat.scoped().take(new.frame_end(k)))) by {
                self.base().lemma_good_smaller(new.base(), s, a);
            }
        }
    }

    /// Views keep their meaning when definitions are added.
    pub proof fn lemma_view_grow(&self, new: &Driver, view: BoolView, p: Prop)
        requires
            self.base().ok(),
            new.base().ok(),
            self.base().extends_to(new.base()),
            view_denotes(self.base(), view, p),
        ensures
            view_denotes(new.base(), view, p),
    {
        assert forall|s: Structure, a: Assignment| #[trigger] new.base().good(s, a) implies view_true(
            a,
            view,
        ) == p(repaired(s)) by {
            self.base().lemma_good_smaller(new.base(), s, a);
        }
    }

    /// The values of the Boolean constants.
    pub proof fn lemma_constant_values(&self, s: Structure)
        requires
            self.steady(),
        ensures
            self.base().value(s, self.true_term.0 as int) == truth(s),
            self.base().value(s, self.false_term.0 as int) == falsity(s),
    {
        let reg = self.euf.interned();
        let m = interp_of(reg, s);
        lemma_value_unfold(reg.terms, m, self.true_term.0 as int);
        lemma_value_unfold(reg.terms, m, self.false_term.0 as int);
        assert(values(reg.terms, m, reg.terms[self.true_term.0 as int].args) =~= Seq::<int>::empty());
        assert(values(reg.terms, m, reg.terms[self.false_term.0 as int].args)
            =~= Seq::<int>::empty());
    }

    /// Returns whether all handle spaces have room.
    pub fn has_room(&self) -> (room: bool)
        requires
            self.euf.wf(),
        ensures
            room == !self.full(),
    {
        self.euf.num_sorts() < 0xFFFF_FFFE && self.euf.num_symbols() < 0xFFFF_FFFE
            && self.euf.num_terms() < 0x7FFF_FFFE && self.euf.num_atoms() < 0xFFFF_FFFB
            && self.sat.num_vars() < 0xFFFF_FFFB && self.fresh_const_counter
            < 0xFFFF_FFFF_FFFF_FFFE
    }

    /// Returns one literal representing the equality atom `lhs = rhs`.
    pub fn equality_literal(&mut self, lhs: TermId, rhs: TermId) -> (lit: Lit)
        requires
            old(self).steady(),
            old(self).base().reg.atoms.len() < 0xFFFF_FFFE,
            old(self).base().vars < 0xFFFF_FFFE,
            lhs.0 < old(self).base().reg.terms.len(),
            rhs.0 < old(self).base().reg.terms.len(),
        ensures
            final(self).steady(),
            old(self).grows_to(final(self)),
            final(self).base().reg.terms == old(self).base().reg.terms,
            final(self).base().reg.term_sorts == old(self).base().reg.term_sorts,
            final(self).base().reg.symbols == old(self).base().reg.symbols,
            final(self).base().reg.sorts == old(self).base().reg.sorts,
            final(self).fresh_const_counter == old(self).fresh_const_counter,
            final(self).fresh == old(self).fresh,
            final(self).base().rooted == old(self).base().rooted,
            final(self).base().vars <= old(self).base().vars + 1,
            final(self).base().reg.atoms.len() <= old(self).base().reg.atoms.len() + 1,
            lit.var.0 < final(self).base().vars,
            forall|s: Structure, a: Assignment| #[trigger]
                final(self).base().good(s, a) ==> lit_true(a, lit) == (final(self).base().value(
                    s,
                    lhs.0 as int,
                ) == final(self).base().value(s, rhs.0 as int)),
    {
        let ghost b0 = self.base();
        proof {
            self.euf.lemma_context();
        }
        match self.euf.equality_var(lhs, rhs) {
            Some(var) => {
                let lit = Lit::new(var, false);
                proof {
                    lemma_bound_literal(b0, var, lhs, rhs);
                }
                lit
            },
            None => {
                let var = self.sat.new_var();
                let lit = Lit::new(var, false);
                proof {
                    assert forall|v: int|
                        0 <= v < b0.bindings.len() && (#[trigger] b0.bindings[v]) is Some
                            && b0.reg.atoms[(b0.bindings[v]->0).0 as int] == ordered(
                            lhs,
                            rhs,
                        ) implies v == var.0 by {
                        assert(b0.context().var_atoms[v] is Some);
                        assert(b0.reg.atoms.contains(ordered(lhs, rhs)));
                    }
                    assert(self.euf.bindable(lhs, rhs, var));
                }
                let atom = self.euf.intern_equality_atom(lhs, rhs, var);
                proof {
                    let b1 = self.base();
                    self.euf.lemma_context();
                    self.sat.lemma_wf();
                    assert(b1.ok()) by {
                        assert(b1.context() == self.euf.context());
                        assert(b1.fresh == b0.fresh);
                        assert forall|sig: Sig| #[trigger] b1.fresh.contains_key(sig) implies internal(
                            sig.name,
                        ) && b1.plain_value(b1.fresh[sig]) && (sig.result == SortView::Bool
                            ==> boolean_val(b1.fresh[sig])) by {
                            assert(b0.fresh.contains_key(sig));
                        }
                        assert(b1.bindings.len() == b1.vars);
                        assert forall|t: int| 0 <= t < b1.reg.term_sorts.len() implies (
                        #[trigger] b1.reg.term_sorts[t]).0 < b1.reg.sorts.len() by {
                            assert(b0.reg.term_sorts[t].0 < b0.reg.sorts.len());
                        }
                        assert forall|f: int| 0 <= f < b1.reg.symbols.len() implies #[trigger] b1.symbol_ok(
                        f) by {
                            assert(b0.symbol_ok(f));
                        }
                    }
                    assert(b0.extends_to(b1));
                    b0.lemma_realizable_bound(b1, atom);
                    old(self).lemma_declared_grow(self);
                    old(self).lemma_fresh_names_same(self);
                    lemma_bound_literal(b1, var, lhs, rhs);
                }
                lit
            },
        }
    }

    /// Adds one permanent clause that holds in all completed structures.
    pub fn define_clause(&mut self, clause: &Vec<Lit>)
        requires
            old(self).steady(),
            lits_below(clause@, old(self).base().vars),
            forall|s: Structure, a: Assignment|
                two_valued(s) && #[trigger] old(self).base().good(
                    extended(old(self).base().fresh, s),
                    a,
                ) ==> clause_true(a, clause@),
        ensures
            final(self).steady(),
            old(self).grows_to(final(self)),
            final(self).base() == (Base {
                rooted: old(self).base().rooted.push(clause@),
                ..old(self).base()
            }),
            final(self).fresh_const_counter == old(self).fresh_const_counter,
            forall|s: Structure, a: Assignment| #[trigger]
                final(self).base().good(s, a) ==> clause_true(a, clause@) && old(self).base().good(
                    s,
                    a,
                ),
    {
        let ghost b0 = self.base();
        self.sat.add_permanent_clause(clause.as_slice());
        proof {
            let b1 = self.base();
            self.sat.lemma_wf();
            assert(b1 == (Base { rooted: b0.rooted.push(clause@), ..b0 }));
            assert(b1.ok()) by {
                assert(b1.context() == b0.context());
                assert forall|f: int| 0 <= f < b1.reg.symbols.len() implies #[trigger] b1.symbol_ok(
                    f,
                ) by {
                    assert(b0.symbol_ok(f));
                }
            }
            assert(b0.extends_to(b1));
            b0.lemma_realizable_clause(b1, clause@);
            old(self).lemma_declared_grow(self);
            assert forall|s: Structure, a: Assignment| #[trigger] b1.good(s, a) implies clause_true(
                a,
                clause@,
            ) && b0.good(s, a) by {
                b0.lemma_good_smaller(b1, s, a);
                assert(b1.rooted[b0.rooted.len() as int] == clause@);
            }
        }
    }

    /// Allocates one fresh variable together with the permanent clauses that define it.
    pub fn define_variable(
        &mut self,
        clauses: &Vec<Vec<Lit>>,
        Ghost(def): Ghost<spec_fn(Assignment) -> bool>,
    ) -> (lit: Lit)
        requires
            old(self).steady(),
            !old(self).full(),
            forall|i: int|
                0 <= i < clauses@.len() ==> lits_below(
                    (#[trigger] clauses@[i])@,
                    old(self).base().vars + 1,
                ),
            forall|a: Assignment|
                a(old(self).base().vars as int) == #[trigger] def(a) ==> clauses_true(
                    a,
                    clause_views(clauses@),
                ),
            forall|a: Assignment, b: Assignment|
                same_below(a, b, old(self).base().vars) ==> #[trigger] def(a) == #[trigger] def(b),
        ensures
            final(self).steady(),
            old(self).grows_to(final(self)),
            final(self).base() == (Base {
                rooted: old(self).base().rooted + clause_views(clauses@),
                vars: old(self).base().vars + 1,
                ..old(self).base()
            }),
            final(self).fresh_const_counter == old(self).fresh_const_counter,
            lit == (Lit { var: Var(old(self).base().vars as u32), negated: false }),
            forall|s: Structure, a: Assignment| #[trigger]
                final(self).base().good(s, a) ==> clauses_true(a, clause_views(clauses@)) && old(self).base().good(s, a),
    {
        let ghost b0 = self.base();
        let ghost views = clause_views(clauses@);
        proof {
            self.sat.lemma_wf();
        }
        let var = self.sat.new_var();
        let lit = Lit::new(var, false);
        let mut i: usize = 0;
        proof {
            assert(b0.rooted + views.take(0) =~= b0.rooted);
        }
        while i < clauses.len()
            invariant
                0 <= i <= clauses.len(),
                views == clause_views(clauses@),
                self.sat.wf(),
                self.sat.var_count() == b0.vars + 1,
                self.sat.rooted() == b0.rooted + views.take(i as int),
                self.sat.scoped() == old(self).sat.scoped(),
                self.sat.scope_starts() == old(self).sat.scope_starts(),
                *self == (Driver { sat: self.sat, ..*old(self) }),
                forall|j: int|
                    0 <= j < clauses@.len() ==> lits_below(
                        (#[trigger] clauses@[j])@,
                        b0.vars + 1,
                    ),
            decreases clauses.len() - i,
        {
            self.sat.add_permanent_clause(clauses[i].as_slice());
            proof {
                assert(views.take(i as int + 1) =~= views.take(i as int).push(
                    clauses@[i as int]@,
                ));
                assert(self.sat.rooted() =~= b0.rooted + views.take(i as int + 1));
            }
            i += 1;
        }
        proof {
            let b1 = self.base();
            assert(views.take(i as int) =~= views);
            self.sat.lemma_wf();
            assert(b1.ok()) by {
                assert(b1.context() == b0.context());
                assert forall|f: int| 0 <= f < b1.reg.symbols.len() implies #[trigger] b1.symbol_ok(
                    f,
                ) by {
                    assert(b0.symbol_ok(f));
                }
            }
            assert(b0.extends_to(b1));
            b0.lemma_realizable_defined(b1, views, def);
            old(self).lemma_declared_grow(self);
            assert forall|s: Structure, a: Assignment| #[trigger] b1.good(s, a) implies clauses_true(
                a,
                views,
            ) && b0.good(s, a) by {
                b0.lemma_good_smaller(b1, s, a);
                assert forall|j: int| 0 <= j < views.len() implies clause_true(
                    a,
                    #[trigger] views[j],
                ) by {
                    assert(b1.rooted[b0.rooted.len() + j] == views[j]);
                    assert(clause_true(a, b1.rooted[b0.rooted.len() + j]));
                }
            }
        }
        lit
    }
}

/// A variable bound to an equality is true exactly when the equality holds.
proof fn lemma_bound_literal(b: Base, var: Var, lhs: TermId, rhs: TermId)
    requires
        b.ok(),
        var.0 < b.bindings.len(),
        b.bindings[var.0 as int] is Some,
        b.reg.atoms[(b.bindings[var.0 as int]->0).0 as int] == ordered(lhs, rhs),
    ensures
        forall|s: Structure, a: Assignment| #[trigger]
            b.good(s, a) ==> lit_true(a, Lit { var, negated: false }) == (b.value(s, lhs.0 as int)
                == b.value(s, rhs.0 as int)),
{
    let lit = Lit { var, negated: false };
    assert forall|s: Structure, a: Assignment| #[trigger] b.good(s, a) implies lit_true(a, lit) == (
    b.value(s, lhs.0 as int) == b.value(s, rhs.0 as int)) by {
        assert(b.context().bound(var));
        assert(a(var.0 as int) == b.context().equal_in(interp_of(b.reg, s), lit));
    }
}

} // verus!
