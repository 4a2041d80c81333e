//! Which structures and assignments satisfy the definitions behind the lowered expressions.
//!
//! Lowering introduces constants, variables and permanent clauses that define them. This module says
//! when a structure and an assignment satisfy these definitions, what lowered literals and terms mean
//! then, and why definitions never rule out a structure.

use crate::euf::closure::Context;
use crate::euf::ids::{SortId, TermId, TheoryAtomId};
use crate::euf::registry::{RegistryView, SortView, SymbolView};
use crate::euf::theory::interp_matches;
use crate::qfuf::denote::{falsity, truth, two_valued, false_sig, true_sig, Prop, Sig, Structure, Val};
use crate::sat::{clause_true, clauses_true, lit_true, lits_below, Assignment, Lit, Var};
use crate::semantics::{lemma_value_unfold, value, values, Interp};
use vstd::prelude::*;

verus! {

/// Everything that definitions are made of.
#[verifier::ext_equal]
pub struct Base {
    /// Interned sorts, symbols, terms and atoms.
    pub reg: RegistryView,
    /// Atom bound to each variable.
    pub bindings: Seq<Option<TheoryAtomId>>,
    /// Permanent clauses.
    pub rooted: Seq<Seq<Lit>>,
    /// Number of variables.
    pub vars: nat,
    /// Values of the introduced constants.
    pub fresh: Map<Sig, Val>,
    /// No declared name looks like the name of an introduced constant.
    pub clean: bool,
}

/// The name looks like that of an introduced constant.
pub open spec fn internal(name: Seq<char>) -> bool {
    name.len() >= 7 && name.take(7) == "|@qfuf "@
}

/// The assignments agree on the first `n` variables.
pub open spec fn same_below(a: Assignment, b: Assignment, n: nat) -> bool {
    forall|w: int| 0 <= w < n ==> #[trigger] a(w) == b(w)
}

/// The structures agree on all symbols that a script can declare.
pub open spec fn agree(a: Structure, b: Structure) -> bool {
    forall|sig: Sig, args: Seq<int>|
        !internal(sig.name) ==> #[trigger] a(sig, args) == b(sig, args)
}

/// The predicate does not depend on introduced constants.
pub open spec fn plain_prop(p: Prop) -> bool {
    forall|a: Structure, b: Structure| #[trigger] agree(a, b) ==> p(a) == p(b)
}

/// The value does not depend on introduced constants.
pub open spec fn plain_val(v: Val) -> bool {
    forall|a: Structure, b: Structure| #[trigger] agree(a, b) ==> v(a) == v(b)
}

/// In two-valued structures the value is that of truth or of falsity.
pub open spec fn boolean_val(v: Val) -> bool {
    forall|s: Structure| #[trigger] two_valued(s) ==> v(s) == truth(s) || v(s) == falsity(s)
}

/// A symbol with its sorts written out.
pub open spec fn sig_of(reg: RegistryView, symbol: SymbolView) -> Sig {
    Sig {
        name: symbol.name,
        args: symbol.arg_sorts.map_values(|s: SortId| reg.sorts[s.0 as int]),
        result: reg.sorts[symbol.result_sort.0 as int],
    }
}

/// The structure as an interpretation of symbol handles.
pub open spec fn interp_of(reg: RegistryView, s: Structure) -> Interp {
    |f: int, args: Seq<int>| s(sig_of(reg, reg.symbols[f]), args)
}

/// The structure with introduced constants given their values.
pub open spec fn extended(fresh: Map<Sig, Val>, s: Structure) -> Structure {
    |sig: Sig, args: Seq<int>|
        if fresh.contains_key(sig) {
            fresh[sig](s)
        } else {
            s(sig, args)
        }
}

/// The structure with every other value of sort Bool replaced by truth.
pub open spec fn repaired(s: Structure) -> Structure {
    |sig: Sig, args: Seq<int>|
        if sig.result == SortView::Bool && s(sig, args) != falsity(s) {
            truth(s)
        } else {
            s(sig, args)
        }
}

impl Base {
    /// Terms, atoms and bound variables.
    pub open spec fn context(self) -> Context {
        Context { terms: self.reg.terms, atoms: self.reg.atoms, var_atoms: self.bindings }
    }

    /// The value of term `t` in a structure.
    pub open spec fn value(self, s: Structure, t: int) -> int {
        value(self.reg.terms, interp_of(self.reg, s), t)
    }

    /// The sort of term `t`.
    pub open spec fn sort(self, t: int) -> SortView {
        self.reg.sorts[self.reg.term_sorts[t].0 as int]
    }

    /// The parts fit each other.
    pub open spec fn ok(self) -> bool {
        &&& self.reg.canonical()
        &&& self.context().ok()
        &&& self.bindings.len() <= self.vars
        &&& self.vars <= u32::MAX
        &&& forall|i: int|
            0 <= i < self.rooted.len() ==> lits_below(#[trigger] self.rooted[i], self.vars)
        &&& forall|f: int| 0 <= f < self.reg.symbols.len() ==> #[trigger] self.symbol_ok(f)
        &&& forall|t: int|
            0 <= t < self.reg.term_sorts.len() ==> (#[trigger] self.reg.term_sorts[t]).0
                < self.reg.sorts.len()
        &&& forall|sig: Sig| #[trigger] self.fresh.contains_key(sig) ==> internal(sig.name)
        &&& forall|sig: Sig| #[trigger]
            self.fresh.contains_key(sig) ==> self.plain_value(self.fresh[sig]) && (sig.result
                == SortView::Bool ==> boolean_val(self.fresh[sig]))
    }

    /// While no declared name looks introduced, the predicate does not depend on introduced constants.
    pub open spec fn plain(self, p: Prop) -> bool {
        self.clean ==> plain_prop(p)
    }

    /// While no declared name looks introduced, the value does not depend on introduced constants.
    pub open spec fn plain_value(self, v: Val) -> bool {
        self.clean ==> plain_val(v)
    }

    /// The sorts of symbol `f` exist.
    pub open spec fn symbol_ok(self, f: int) -> bool {
        let symbol = self.reg.symbols[f];
        &&& symbol.result_sort.0 < self.reg.sorts.len()
        &&& forall|i: int|
            0 <= i < symbol.arg_sorts.len() ==> (#[trigger] symbol.arg_sorts[i]).0
                < self.reg.sorts.len()
    }

    /// The structure and the assignment satisfy all definitions.
    pub open spec fn good(self, s: Structure, a: Assignment) -> bool {
        &&& self.clean
        &&& interp_matches(self.context(), interp_of(self.reg, s), a)
        &&& clauses_true(a, self.rooted)
    }

    /// The two-valued structure can be completed to satisfy all definitions.
    pub open spec fn completable(self, s: Structure) -> bool {
        exists|a: Assignment| self.good(extended(self.fresh, s), a)
    }

    /// Definitions rule out no two-valued structure.
    pub open spec fn realizable(self) -> bool {
        self.clean ==> forall|s: Structure| #[trigger] two_valued(s) ==> self.completable(s)
    }

    /// Definitions force truth and falsity apart.
    pub open spec fn separated(self) -> bool {
        forall|s: Structure, a: Assignment| #[trigger] self.good(s, a) ==> truth(s) != falsity(s)
    }

    /// Wherever the definitions hold, literal `lit` is true exactly when `p` holds.
    pub open spec fn lit_denotes(self, lit: Lit, p: Prop) -> bool {
        &&& lit.var.0 < self.vars
        &&& self.plain(p)
        &&& forall|s: Structure, a: Assignment| #[trigger]
            self.good(s, a) ==> lit_true(a, lit) == p(repaired(s))
    }

    /// Wherever the definitions hold, term `t` has sort `sort` and value `val`.
    pub open spec fn term_denotes(self, t: TermId, sort: SortView, val: Val) -> bool {
        &&& t.0 < self.reg.terms.len()
        &&& self.sort(t.0 as int) == sort
        &&& self.plain_value(val)
        &&& sort == SortView::Bool ==> boolean_val(val)
        &&& forall|s: Structure, a: Assignment| #[trigger]
            self.good(s, a) ==> self.value(s, t.0 as int) == val(repaired(s))
    }

    /// `new` holds everything that this base holds.
    pub open spec fn extends_to(self, new: Base) -> bool {
        &&& self.clean == new.clean
        &&& self.reg.sorts.len() <= new.reg.sorts.len()
        &&& forall|i: int| 0 <= i < self.reg.sorts.len() ==> #[trigger] new.reg.sorts[i] == self.reg.sorts[i]
        &&& self.reg.symbols.len() <= new.reg.symbols.len()
        &&& forall|i: int|
            0 <= i < self.reg.symbols.len() ==> #[trigger] new.reg.symbols[i] == self.reg.symbols[i]
        &&& self.reg.terms.len() <= new.reg.terms.len()
        &&& forall|i: int|
            0 <= i < self.reg.terms.len() ==> #[trigger] new.reg.terms[i] == self.reg.terms[i]
        &&& forall|i: int|
            0 <= i < self.reg.terms.len() ==> #[trigger] new.reg.term_sorts[i]
                == self.reg.term_sorts[i]
        &&& self.reg.atoms.len() <= new.reg.atoms.len()
        &&& forall|i: int|
            0 <= i < self.reg.atoms.len() ==> #[trigger] new.reg.atoms[i] == self.reg.atoms[i]
        &&& self.bindings.len() <= new.bindings.len()
        &&& forall|v: int|
            0 <= v < self.bindings.len() && (#[trigger] self.bindings[v]) is Some ==> new.bindings[v]
                == self.bindings[v]
        &&& self.rooted.len() <= new.rooted.len()
        &&& forall|i: int|
            0 <= i < self.rooted.len() ==> #[trigger] new.rooted[i] == self.rooted[i]
        &&& self.vars <= new.vars
    }

    /// The interpretation of registered symbols does not change when the base grows.
    proof fn lemma_symbols_same(self, new: Base, s: Structure, f: int, args: Seq<int>)
        requires
            self.ok(),
            new.ok(),
            self.extends_to(new),
            0 <= f < self.reg.symbols.len(),
        ensures
            interp_of(self.reg, s)(f, args) == interp_of(new.reg, s)(f, args),
            sig_of(self.reg, self.reg.symbols[f]) == sig_of(new.reg, new.reg.symbols[f]),
    {
        assert(self.symbol_ok(f));
        let a = sig_of(self.reg, self.reg.symbols[f]);
        let b = sig_of(new.reg, new.reg.symbols[f]);
        assert(a.args =~= b.args);
        assert(a == b);
    }

    /// Values do not change when the base grows.
    pub proof fn lemma_value_same(self, new: Base, s: Structure, t: int)
        requires
            self.ok(),
            new.ok(),
            self.extends_to(new),
            0 <= t < self.reg.terms.len(),
        ensures
            self.value(s, t) == new.value(s, t),
        decreases t,
    {
        let m = interp_of(self.reg, s);
        let n = interp_of(new.reg, s);
        lemma_value_unfold(self.reg.terms, m, t);
        lemma_value_unfold(new.reg.terms, n, t);
        assert(new.reg.terms[t] == self.reg.terms[t]);
        let args = self.reg.terms[t].args;
        assert forall|k: int| 0 <= k < args.len() implies value(self.reg.terms, m, args[k])
            == value(new.reg.terms, n, args[k]) by {
            assert(0 <= self.reg.terms[t].args[k] < t);
            self.lemma_value_same(new, s, args[k]);
        }
        assert(values(self.reg.terms, m, args) =~= values(new.reg.terms, n, args));
        assert(self.reg.well_sorted(t));
        self.lemma_symbols_same(new, s, self.reg.terms[t].fun, values(self.reg.terms, m, args));
    }

    /// Values depend only on what the structures say of registered symbols.
    pub proof fn lemma_value_structures(self, s: Structure, r: Structure, t: int)
        requires
            self.ok(),
            0 <= t < self.reg.terms.len(),
            forall|f: int, args: Seq<int>|
                0 <= f < self.reg.symbols.len() ==> #[trigger] interp_of(self.reg, s)(f, args)
                    == interp_of(self.reg, r)(f, args),
        ensures
            self.value(s, t) == self.value(r, t),
        decreases t,
    {
        let m = interp_of(self.reg, s);
        let n = interp_of(self.reg, r);
        lemma_value_unfold(self.reg.terms, m, t);
        lemma_value_unfold(self.reg.terms, n, t);
        let args = self.reg.terms[t].args;
        assert forall|k: int| 0 <= k < args.len() implies value(self.reg.terms, m, args[k])
            == value(self.reg.terms, n, args[k]) by {
            assert(0 <= self.reg.terms[t].args[k] < t);
            self.lemma_value_structures(s, r, args[k]);
        }
        assert(values(self.reg.terms, m, args) =~= values(self.reg.terms, n, args));
        assert(self.reg.well_sorted(t));
        assert(m(self.reg.terms[t].fun, values(self.reg.terms, m, args)) == n(
            self.reg.terms[t].fun,
            values(self.reg.terms, m, args),
        ));
    }

    /// What satisfies more definitions satisfies fewer.
    pub proof fn lemma_good_smaller(self, new: Base, s: Structure, a: Assignment)
        requires
            self.ok(),
            new.ok(),
            self.extends_to(new),
            new.good(s, a),
        ensures
            self.good(s, a),
    {
        let c0 = self.context();
        let c1 = new.context();
        assert forall|var: Var| #[trigger] c0.bound(var) implies a(var.0 as int) == c0.equal_in(
            interp_of(self.reg, s),
            Lit { var, negated: false },
        ) by {
            let lit = Lit { var, negated: false };
            assert(self.bindings[var.0 as int] is Some);
            assert(c1.bound(var));
            assert(c0.var_atoms[var.0 as int] is Some);
            assert(new.reg.atoms[c0.atom(lit)] == self.reg.atoms[c0.atom(lit)]);
            assert(c0.atoms[c0.atom(lit)].0.0 < c0.terms.len());
            self.lemma_value_same(new, s, c0.lhs(lit));
            self.lemma_value_same(new, s, c0.rhs(lit));
        }
        assert forall|i: int| 0 <= i < self.rooted.len() implies clause_true(
            a,
            #[trigger] self.rooted[i],
        ) by {
            assert(new.rooted[i] == self.rooted[i]);
            assert(clause_true(a, new.rooted[i]));
        }
    }

    /// Terms keep their meaning when the base grows.
    pub proof fn lemma_term_grow(self, new: Base, t: TermId, sort: SortView, val: Val)
        requires
            self.ok(),
            new.ok(),
            self.extends_to(new),
            self.term_denotes(t, sort, val),
        ensures
            new.term_denotes(t, sort, val),
    {
        assert(new.reg.term_sorts[t.0 as int] == self.reg.term_sorts[t.0 as int]);
        assert(self.reg.term_sorts[t.0 as int].0 < self.reg.sorts.len());
        assert forall|s: Structure, a: Assignment| #[trigger] new.good(s, a) implies new.value(
            s,
            t.0 as int,
        ) == val(repaired(s)) by {
            self.lemma_good_smaller(new, s, a);
            self.lemma_value_same(new, s, t.0 as int);
        }
    }

    /// Definitions that keep truth and falsity apart go on doing so.
    pub proof fn lemma_separated_grow(self, new: Base)
        requires
            self.ok(),
            new.ok(),
            self.extends_to(new),
            self.separated(),
        ensures
            new.separated(),
    {
        assert forall|s: Structure, a: Assignment| #[trigger] new.good(s, a) implies truth(s)
            != falsity(s) by {
            self.lemma_good_smaller(new, s, a);
        }
    }

    /// Growing in two steps is growing.
    pub proof fn lemma_extends_trans(self, mid: Base, new: Base)
        requires
            self.extends_to(mid),
            mid.extends_to(new),
            self.reg.terms.len() == self.reg.term_sorts.len(),
        ensures
            self.extends_to(new),
    {
        assert forall|i: int| 0 <= i < self.reg.sorts.len() implies #[trigger] new.reg.sorts[i]
            == self.reg.sorts[i] by {
            assert(mid.reg.sorts[i] == self.reg.sorts[i]);
        }
        assert forall|i: int| 0 <= i < self.reg.symbols.len() implies #[trigger] new.reg.symbols[i]
            == self.reg.symbols[i] by {
            assert(mid.reg.symbols[i] == self.reg.symbols[i]);
        }
        assert forall|i: int| 0 <= i < self.reg.terms.len() implies #[trigger] new.reg.terms[i]
            == self.reg.terms[i] by {
            assert(mid.reg.terms[i] == self.reg.terms[i]);
        }
        assert forall|i: int| 0 <= i < self.reg.terms.len() implies #[trigger] new.reg.term_sorts[i]
            == self.reg.term_sorts[i] by {
            assert(mid.reg.term_sorts[i] == self.reg.term_sorts[i]);
        }
        assert forall|i: int| 0 <= i < self.reg.atoms.len() implies #[trigger] new.reg.atoms[i]
            == self.reg.atoms[i] by {
            assert(mid.reg.atoms[i] == self.reg.atoms[i]);
        }
        assert forall|v: int|
            0 <= v < self.bindings.len() && (#[trigger] self.bindings[v]) is Some implies new.bindings[v]
            == self.bindings[v] by {
            assert(mid.bindings[v] == self.bindings[v]);
        }
        assert forall|i: int| 0 <= i < self.rooted.len() implies #[trigger] new.rooted[i]
            == self.rooted[i] by {
            assert(mid.rooted[i] == self.rooted[i]);
        }
    }

    /// New sorts, symbols and terms rule nothing out.
    pub proof fn lemma_realizable_interned(self, new: Base)
        requires
            self.ok(),
            new.ok(),
            self.extends_to(new),
            self.realizable(),
            new.reg.atoms == self.reg.atoms,
            new.bindings == self.bindings,
            new.rooted == self.rooted,
            new.fresh == self.fresh,
        ensures
            new.realizable(),
    {
        if new.clean {
            assert forall|s: Structure| #[trigger] two_valued(s) implies new.completable(s) by {
                let e = extended(self.fresh, s);
                assert(self.completable(s));
                let a = choose|a: Assignment| self.good(e, a);
                self.lemma_good_larger(new, e, a);
                assert(new.good(e, a));
            }
        }
    }

    proof fn lemma_good_larger(self, new: Base, s: Structure, a: Assignment)
        requires
            self.ok(),
            new.ok(),
            self.extends_to(new),
            new.reg.atoms == self.reg.atoms,
            new.bindings == self.bindings,
            new.rooted == self.rooted,
            self.good(s, a),
        ensures
            new.good(s, a),
    {
        let c0 = self.context();
        let c1 = new.context();
        assert forall|var: Var| #[trigger] c1.bound(var) implies a(var.0 as int) == c1.equal_in(
            interp_of(new.reg, s),
            Lit { var, negated: false },
        ) by {
            let lit = Lit { var, negated: false };
            assert(c0.bound(var));
            assert(c0.var_atoms[var.0 as int] is Some);
            assert(c0.atoms[c0.atom(lit)].0.0 < c0.terms.len());
            self.lemma_value_same(new, s, c0.lhs(lit));
            self.lemma_value_same(new, s, c0.rhs(lit));
        }
    }

    /// A new constant with a prescribed value rules nothing out.
    pub proof fn lemma_realizable_fresh(self, new: Base, sig: Sig, val: Val)
        requires
            self.ok(),
            new.ok(),
            self.extends_to(new),
            self.realizable(),
            new.reg.atoms == self.reg.atoms,
            new.bindings == self.bindings,
            new.rooted == self.rooted,
            new.fresh == self.fresh.insert(sig, val),
            forall|f: int|
                0 <= f < self.reg.symbols.len() ==> sig_of(
                    self.reg,
                    #[trigger] self.reg.symbols[f],
                ) != sig,
        ensures
            new.realizable(),
    {
        if new.clean {
            assert forall|s: Structure| #[trigger] two_valued(s) implies new.completable(s) by {
                let e = extended(self.fresh, s);
                let e1 = extended(new.fresh, s);
                assert(self.completable(s));
                let a = choose|a: Assignment| self.good(e, a);
                assert forall|f: int, args: Seq<int>|
                    0 <= f < self.reg.symbols.len() implies #[trigger] interp_of(self.reg, e)(
                    f,
                    args,
                ) == interp_of(self.reg, e1)(f, args) by {
                    assert(sig_of(self.reg, self.reg.symbols[f]) != sig);
                }
                self.lemma_good_structures(e, e1, a);
                self.lemma_good_larger(new, e1, a);
                assert(new.good(e1, a));
            }
        }
    }

    proof fn lemma_good_structures(self, s: Structure, r: Structure, a: Assignment)
        requires
            self.ok(),
            self.good(s, a),
            forall|f: int, args: Seq<int>|
                0 <= f < self.reg.symbols.len() ==> #[trigger] interp_of(self.reg, s)(f, args)
                    == interp_of(self.reg, r)(f, args),
        ensures
            self.good(r, a),
    {
        let c = self.context();
        assert forall|var: Var| #[trigger] c.bound(var) implies a(var.0 as int) == c.equal_in(
            interp_of(self.reg, r),
            Lit { var, negated: false },
        ) by {
            let lit = Lit { var, negated: false };
            assert(c.var_atoms[var.0 as int] is Some);
            assert(c.atoms[c.atom(lit)].0.0 < c.terms.len());
            self.lemma_value_structures(s, r, c.lhs(lit));
            self.lemma_value_structures(s, r, c.rhs(lit));
        }
    }

    /// A new variable for an equality rules nothing out.
    pub proof fn lemma_realizable_bound(self, new: Base, atom: TheoryAtomId)
        requires
            self.ok(),
            new.ok(),
            self.extends_to(new),
            self.realizable(),
            new.reg.terms == self.reg.terms,
            new.reg.symbols == self.reg.symbols,
            new.reg.sorts == self.reg.sorts,
            new.rooted == self.rooted,
            new.fresh == self.fresh,
            new.bindings.len() == self.vars + 1,
            new.bindings[self.vars as int] == Some(atom),
            forall|v: int|
                0 <= v < self.vars ==> #[trigger] new.bindings[v] == if v < self.bindings.len() {
                    self.bindings[v]
                } else {
                    None
                },
        ensures
            new.realizable(),
    {
        if new.clean {
            assert forall|s: Structure| #[trigger] two_valued(s) implies new.completable(s) by {
                let e = extended(self.fresh, s);
                let m = interp_of(self.reg, e);
                assert(self.completable(s));
                let a = choose|a: Assignment| self.good(e, a);
                let c0 = self.context();
                let c1 = new.context();
                let v = self.vars as int;
                let top = Var(v as u32);
                let b = |w: int|
                    if w == v {
                        c1.equal_in(m, Lit { var: top, negated: false })
                    } else {
                        a(w)
                    };
                assert(interp_of(new.reg, e) == m);
                assert forall|var: Var| #[trigger] c1.bound(var) implies b(var.0 as int)
                    == c1.equal_in(m, Lit { var, negated: false }) by {
                    let lit = Lit { var, negated: false };
                    if var.0 != v {
                        assert(new.bindings[var.0 as int] is Some);
                        assert(c0.bound(var));
                        assert(c0.var_atoms[var.0 as int] is Some);
                        assert(new.reg.atoms[c0.atom(lit)] == self.reg.atoms[c0.atom(lit)]);
                        assert(a(var.0 as int) == c0.equal_in(m, lit));
                    } else {
                        assert(var == top);
                    }
                }
                assert forall|i: int| 0 <= i < new.rooted.len() implies clause_true(
                    b,
                    #[trigger] new.rooted[i],
                ) by {
                    assert(lits_below(self.rooted[i], self.vars));
                    assert(clause_true(a, self.rooted[i]));
                    lemma_clause_below(a, b, self.rooted[i], self.vars);
                }
                assert(new.good(e, b));
            }
        }
    }

    /// A new variable that clauses define in terms of older ones rules nothing out.
    pub proof fn lemma_realizable_defined(
        self,
        new: Base,
        clauses: Seq<Seq<Lit>>,
        def: spec_fn(Assignment) -> bool,
    )
        requires
            self.ok(),
            new.ok(),
            self.extends_to(new),
            self.realizable(),
            new.reg == self.reg,
            new.bindings == self.bindings,
            new.fresh == self.fresh,
            new.vars == self.vars + 1,
            new.rooted == self.rooted + clauses,
            forall|a: Assignment| a(self.vars as int) == #[trigger] def(a) ==> clauses_true(
                a,
                clauses,
            ),
            forall|a: Assignment, b: Assignment|
                same_below(a, b, self.vars) ==> #[trigger] def(a) == #[trigger] def(b),
        ensures
            new.realizable(),
    {
        if new.clean {
            assert forall|s: Structure| #[trigger] two_valued(s) implies new.completable(s) by {
                let e = extended(self.fresh, s);
                assert(self.completable(s));
                let a = choose|a: Assignment| self.good(e, a);
                let v = self.vars as int;
                let b = |w: int|
                    if w == v {
                        def(a)
                    } else {
                        a(w)
                    };
                assert(same_below(a, b, self.vars));
                assert(def(a) == def(b));
                assert(clauses_true(b, clauses));
                let c = self.context();
                assert forall|var: Var| #[trigger] new.context().bound(var) implies b(var.0 as int)
                    == new.context().equal_in(
                    interp_of(new.reg, e),
                    Lit { var, negated: false },
                ) by {
                    assert(c.bound(var));
                    assert(var.0 < self.vars);
                }
                assert forall|i: int| 0 <= i < new.rooted.len() implies clause_true(
                    b,
                    #[trigger] new.rooted[i],
                ) by {
                    if i < self.rooted.len() {
                        assert(new.rooted[i] == self.rooted[i]);
                        assert(lits_below(self.rooted[i], self.vars));
                        assert(clause_true(a, self.rooted[i]));
                        lemma_clause_below(a, b, self.rooted[i], self.vars);
                    } else {
                        assert(new.rooted[i] == clauses[i - self.rooted.len()]);
                        assert(clause_true(b, clauses[i - self.rooted.len()]));
                    }
                }
                assert(new.good(e, b));
            }
        }
    }

    /// A clause that holds in all completed structures rules nothing out.
    pub proof fn lemma_realizable_clause(self, new: Base, clause: Seq<Lit>)
        requires
            self.ok(),
            new.ok(),
            self.realizable(),
            new == (Base { rooted: self.rooted.push(clause), ..self }),
            forall|s: Structure, a: Assignment|
                two_valued(s) && #[trigger] self.good(extended(self.fresh, s), a) ==> clause_true(
                    a,
                    clause,
                ),
        ensures
            new.realizable(),
    {
        if new.clean {
            assert forall|s: Structure| #[trigger] two_valued(s) implies new.completable(s) by {
                let e = extended(self.fresh, s);
                assert(self.completable(s));
                let a = choose|a: Assignment| self.good(e, a);
                assert(clause_true(a, clause));
                assert forall|i: int| 0 <= i < new.rooted.len() implies clause_true(
                    a,
                    #[trigger] new.rooted[i],
                ) by {
                    if i < self.rooted.len() {
                        assert(new.rooted[i] == self.rooted[i]);
                        assert(clause_true(a, self.rooted[i]));
                    }
                }
                assert(new.context() == self.context());
                assert(interp_of(new.reg, e) == interp_of(self.reg, e));
                assert(new.good(e, a));
                assert(new.good(extended(new.fresh, s), a));
            }
        }
    }

    /// Completing a two-valued structure keeps it two-valued, and keeps what scripts can speak of.
    pub proof fn lemma_extended(self, s: Structure)
        requires
            self.ok(),
            two_valued(s),
        ensures
            two_valued(extended(self.fresh, s)),
            agree(extended(self.fresh, s), s),
            truth(extended(self.fresh, s)) == truth(s),
            falsity(extended(self.fresh, s)) == falsity(s),
            agree(repaired(extended(self.fresh, s)), s),
    {
        let e = extended(self.fresh, s);
        lemma_constants_plain();
        assert(agree(e, s));
        assert(e(true_sig(), Seq::empty()) == s(true_sig(), Seq::empty()));
        assert(e(false_sig(), Seq::empty()) == s(false_sig(), Seq::empty()));
        assert forall|sig: Sig, args: Seq<int>| sig.result == SortView::Bool implies #[trigger] e(
            sig,
            args,
        ) == truth(e) || e(sig, args) == falsity(e) by {
            if self.fresh.contains_key(sig) {
                assert(boolean_val(self.fresh[sig]));
            } else {
                assert(e(sig, args) == s(sig, args));
                assert(s(sig, args) == truth(s) || s(sig, args) == falsity(s));
            }
        }
        let r = repaired(e);
        assert forall|sig: Sig, args: Seq<int>| !internal(sig.name) implies #[trigger] r(sig, args)
            == s(sig, args) by {
            assert(e(sig, args) == s(sig, args));
            if sig.result == SortView::Bool {
                assert(s(sig, args) == truth(s) || s(sig, args) == falsity(s));
            }
        }
    }
}

/// The constants for truth and falsity are not introduced ones.
pub proof fn lemma_constants_plain()
    ensures
        !internal(true_sig().name),
        !internal(false_sig().name),
        true_sig() != false_sig(),
{
    reveal_strlit("true");
    reveal_strlit("false");
    assert("true"@.len() == 4);
    assert("false"@.len() == 5);
}

/// Repairing a structure in which truth and falsity differ makes it two-valued.
pub proof fn lemma_repaired(s: Structure)
    requires
        truth(s) != falsity(s),
    ensures
        two_valued(repaired(s)),
        truth(repaired(s)) == truth(s),
        falsity(repaired(s)) == falsity(s),
{
    let r = repaired(s);
    assert(r(true_sig(), Seq::empty()) == truth(s));
    assert(r(false_sig(), Seq::empty()) == falsity(s));
}

/// Clauses over the first `n` variables do not depend on the others.
pub proof fn lemma_clause_below(a: Assignment, b: Assignment, clause: Seq<Lit>, n: nat)
    requires
        lits_below(clause, n),
        forall|w: int| 0 <= w < n ==> #[trigger] a(w) == b(w),
        clause_true(a, clause),
    ensures
        clause_true(b, clause),
{
    let i = choose|i: int| 0 <= i < clause.len() && lit_true(a, #[trigger] clause[i]);
    assert(a(clause[i].var.0 as int) == b(clause[i].var.0 as int));
    assert(lit_true(b, clause[i]));
}

} // verus!
