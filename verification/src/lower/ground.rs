//! Which models, interpretations and assignments satisfy the definitions of the backend.

use crate::euf_core::FunId;
use crate::lower::denote::{Model, Quantity};
use crate::lower::search::{keys_in_range, keys_match, TheoryKey};
use crate::sat::{clause_true, clauses_true, lit_true, lits_below, Assignment, Lit, Var};
use crate::semantics::{
    atom_holds, lemma_value_unfold, value, values, well_founded, Interp, TermView,
};
use vstd::prelude::*;

verus! {

/// Which frames are taken to be open, by activation.
pub type Switches = spec_fn(Seq<u32>) -> bool;

/// Everything that the backend's definitions are made of.
#[verifier::ext_equal]
pub struct Ground {
    /// Interned terms.
    pub terms: Seq<TermView>,
    /// Number of function symbols.
    pub fun_count: nat,
    /// The relation of every theory variable.
    pub keys: Seq<Option<TheoryKey>>,
    /// Defining clauses.
    pub definitions: Seq<Seq<Lit>>,
    /// Number of variables.
    pub vars: nat,
    /// The variable of every activation.
    pub guards: Map<Seq<u32>, u32>,
    /// The variable of every Boolean symbol.
    pub bools: Map<Seq<char>, Var>,
    /// The function symbol of every name.
    pub funs: Map<Seq<char>, FunId>,
    /// The values of introduced constants.
    pub proxies: Map<int, Quantity>,
}

/// The assignments agree on the first `n` variables.
pub open spec fn same_below(a: Assignment, b: Assignment, n: nat) -> bool {
    forall|w: int| 0 <= w < n ==> #[trigger] a(w) == b(w)
}

/// The assignment with one value changed.
pub open spec fn with_value(a: Assignment, v: int, x: bool) -> Assignment {
    |w: int|
        if w == v {
            x
        } else {
            a(w)
        }
}

/// The interpretation with one constant changed.
pub open spec fn with_function(m: Interp, f: int, g: spec_fn(Seq<int>) -> int) -> Interp {
    |h: int, args: Seq<int>|
        if h == f {
            g(args)
        } else {
            m(h, args)
        }
}

/// Every entry of `a` is one of `b`.
pub open spec fn kept<K, V>(a: Map<K, V>, b: Map<K, V>) -> bool {
    forall|k: K| #[trigger] a.contains_key(k) ==> b.contains_key(k) && b[k] == a[k]
}

impl Ground {
    /// The parts fit each other.
    pub open spec fn ok(self) -> bool {
        &&& well_founded(self.terms)
        &&& forall|t: int|
            0 <= t < self.terms.len() ==> 0 <= (#[trigger] self.terms[t]).fun < self.fun_count
        &&& keys_in_range(self.terms, self.keys)
        &&& self.keys.len() <= self.vars
        &&& self.vars <= u32::MAX
        &&& forall|i: int|
            0 <= i < self.definitions.len() ==> lits_below(
                #[trigger] self.definitions[i],
                self.vars,
            )
        &&& forall|k: Seq<u32>| #[trigger]
            self.guards.contains_key(k) ==> self.guards[k] < self.vars
        &&& forall|n: Seq<char>| #[trigger]
            self.bools.contains_key(n) ==> self.bools[n].0 < self.vars
        &&& forall|n: Seq<char>| #[trigger]
            self.funs.contains_key(n) ==> 0 <= self.funs[n].id() < self.fun_count
        &&& forall|f: int| #[trigger] self.proxies.contains_key(f) ==> 0 <= f < self.fun_count
    }

    /// Interpretation and assignment give the known names what the model gives them.
    pub open spec fn names_agree(self, model: Model, m: Interp, a: Assignment) -> bool {
        &&& forall|n: Seq<char>| #[trigger]
            self.bools.contains_key(n) ==> (model.bools)(n) == a(self.bools[n].0 as int)
        &&& forall|n: Seq<char>, args: Seq<int>|
            #![trigger self.funs.contains_key(n), (model.funs)(n, args)]
            self.funs.contains_key(n) ==> (model.funs)(n, args) == m(self.funs[n].id(), args)
    }

    /// Model, interpretation and assignment satisfy the definitions.
    pub open spec fn good(self, model: Model, m: Interp, a: Assignment) -> bool {
        &&& self.names_agree(model, m, a)
        &&& keys_match(self.terms, self.keys, m, a)
        &&& clauses_true(a, self.definitions)
    }

    /// They also give the introduced constants their values.
    pub open spec fn pinned(self, model: Model, m: Interp, a: Assignment) -> bool {
        &&& self.good(model, m, a)
        &&& forall|f: int, args: Seq<int>|
            #![trigger self.proxies.contains_key(f), m(f, args)]
            self.proxies.contains_key(f) ==> m(f, args) == (self.proxies[f])(model)
    }

    /// They also switch the frames as asked.
    pub open spec fn complete(self, model: Model, switches: Switches, m: Interp, a: Assignment) -> bool {
        &&& self.pinned(model, m, a)
        &&& forall|k: Seq<u32>| #[trigger]
            self.guards.contains_key(k) ==> a(self.guards[k] as int) == switches(k)
    }

    /// Some interpretation and assignment complete the model.
    pub open spec fn completable(self, model: Model, switches: Switches) -> bool {
        exists|m: Interp, a: Assignment| self.complete(model, switches, m, a)
    }

    /// Definitions rule out no model and no way to switch the frames.
    pub open spec fn realizable(self) -> bool {
        forall|model: Model, switches: Switches| #[trigger] self.completable(model, switches)
    }

    /// Wherever the definitions hold, term `t` has this value.
    pub open spec fn term_denotes(self, t: int, u: Quantity) -> bool {
        &&& 0 <= t < self.terms.len()
        &&& forall|model: Model, m: Interp, a: Assignment| #[trigger]
            self.good(model, m, a) ==> value(self.terms, m, t) == u(model)
    }

    /// `new` holds everything that this ground holds.
    pub open spec fn extends_to(self, new: Ground) -> bool {
        &&& self.terms.len() <= new.terms.len()
        &&& new.terms.take(self.terms.len() as int) == self.terms
        &&& self.fun_count <= new.fun_count
        &&& self.keys.len() <= new.keys.len()
        &&& forall|v: int|
            0 <= v < self.keys.len() && (#[trigger] self.keys[v]) is Some ==> new.keys[v]
                == self.keys[v]
        &&& self.definitions.len() <= new.definitions.len()
        &&& new.definitions.take(self.definitions.len() as int) == self.definitions
        &&& self.vars <= new.vars
        &&& kept(self.guards, new.guards)
        &&& kept(self.bools, new.bools)
        &&& kept(self.funs, new.funs)
        &&& kept(self.proxies, new.proxies)
    }

    /// Nothing has been added yet.
    pub proof fn lemma_refl(self)
        ensures
            self.extends_to(self),
    {
        assert(self.terms.take(self.terms.len() as int) =~= self.terms);
        assert(self.definitions.take(self.definitions.len() as int) =~= self.definitions);
    }

    /// Growing in two steps is growing.
    pub proof fn lemma_trans(self, mid: Ground, new: Ground)
        requires
            self.extends_to(mid),
            mid.extends_to(new),
        ensures
            self.extends_to(new),
    {
        assert(new.terms.take(self.terms.len() as int) =~= self.terms) by {
            assert forall|i: int| 0 <= i < self.terms.len() implies new.terms[i] == self.terms[i] by {
                assert(mid.terms.take(self.terms.len() as int)[i] == self.terms[i]);
                assert(new.terms.take(mid.terms.len() as int)[i] == mid.terms[i]);
            }
        }
        assert(new.definitions.take(self.definitions.len() as int) =~= self.definitions) by {
            assert forall|i: int| 0 <= i < self.definitions.len() implies new.definitions[i]
                == self.definitions[i] by {
                assert(mid.definitions.take(self.definitions.len() as int)[i]
                    == self.definitions[i]);
                assert(new.definitions.take(mid.definitions.len() as int)[i] == mid.definitions[i]);
            }
        }
        assert forall|v: int|
            0 <= v < self.keys.len() && (#[trigger] self.keys[v]) is Some implies new.keys[v]
            == self.keys[v] by {
            assert(mid.keys[v] == self.keys[v]);
        }
    }

    /// Values do not change when terms are added.
    pub proof fn lemma_value_same(self, new: Ground, m: Interp, t: int)
        requires
            self.ok(),
            new.ok(),
            self.extends_to(new),
            0 <= t < self.terms.len(),
        ensures
            value(new.terms, m, t) == value(self.terms, m, t),
        decreases t,
    {
        lemma_value_unfold(self.terms, m, t);
        lemma_value_unfold(new.terms, m, t);
        assert(new.terms.take(self.terms.len() as int)[t] == self.terms[t]);
        let args = self.terms[t].args;
        assert forall|k: int| 0 <= k < args.len() implies value(self.terms, m, args[k]) == value(
            new.terms,
            m,
            args[k],
        ) by {
            assert(0 <= self.terms[t].args[k] < t);
            self.lemma_value_same(new, m, args[k]);
        }
        assert(values(self.terms, m, args) =~= values(new.terms, m, args));
    }

    /// Values do not depend on symbols that no term uses.
    pub proof fn lemma_value_function(self, m: Interp, n: Interp, t: int)
        requires
            self.ok(),
            0 <= t < self.terms.len(),
            forall|f: int, args: Seq<int>|
                0 <= f < self.fun_count ==> #[trigger] n(f, args) == m(f, args),
        ensures
            value(self.terms, n, t) == value(self.terms, m, t),
        decreases t,
    {
        lemma_value_unfold(self.terms, m, t);
        lemma_value_unfold(self.terms, n, t);
        let args = self.terms[t].args;
        assert forall|k: int| 0 <= k < args.len() implies value(self.terms, m, args[k]) == value(
            self.terms,
            n,
            args[k],
        ) by {
            assert(0 <= self.terms[t].args[k] < t);
            self.lemma_value_function(m, n, args[k]);
        }
        assert(values(self.terms, m, args) =~= values(self.terms, n, args));
        assert(0 <= self.terms[t].fun < self.fun_count);
        assert(n(self.terms[t].fun, values(self.terms, m, args)) == m(
            self.terms[t].fun,
            values(self.terms, m, args),
        ));
    }

    /// What satisfies more definitions satisfies fewer.
    pub proof fn lemma_good_smaller(self, new: Ground, model: Model, m: Interp, a: Assignment)
        requires
            self.ok(),
            new.ok(),
            self.extends_to(new),
            new.good(model, m, a),
        ensures
            self.good(model, m, a),
    {
        assert forall|n: Seq<char>| #[trigger] self.bools.contains_key(n) implies (model.bools)(n)
            == a(self.bools[n].0 as int) by {
            assert(new.bools.contains_key(n));
        }
        assert forall|n: Seq<char>, args: Seq<int>|
            #![trigger self.funs.contains_key(n), (model.funs)(n, args)]
            self.funs.contains_key(n) implies (model.funs)(n, args) == m(
            self.funs[n].id(),
            args,
        ) by {
            assert(new.funs.contains_key(n));
        }
        assert forall|v: int| 0 <= v < self.keys.len() && (#[trigger] self.keys[v]) is Some implies a(
            v,
        ) == atom_holds(self.terms, m, (self.keys[v]->0).atom()) by {
            assert(new.keys[v] is Some);
            let key = self.keys[v]->0;
            assert(key.in_range(self.terms));
            crate::euf_core::lemma_term_id_range(key.lhs);
            crate::euf_core::lemma_term_id_range(key.rhs);
            self.lemma_value_same(new, m, key.lhs.id());
            self.lemma_value_same(new, m, key.rhs.id());
        }
        assert forall|i: int| 0 <= i < self.definitions.len() implies clause_true(
            a,
            #[trigger] self.definitions[i],
        ) by {
            assert(new.definitions.take(self.definitions.len() as int)[i] == self.definitions[i]);
            assert(clause_true(a, new.definitions[i]));
        }
    }

    /// Terms keep their meaning when the ground grows.
    pub proof fn lemma_term_grow(self, new: Ground, t: int, u: Quantity)
        requires
            self.ok(),
            new.ok(),
            self.extends_to(new),
            self.term_denotes(t, u),
        ensures
            new.term_denotes(t, u),
    {
        assert forall|model: Model, m: Interp, a: Assignment| #[trigger] new.good(
            model,
            m,
            a,
        ) implies value(new.terms, m, t) == u(model) by {
            self.lemma_good_smaller(new, model, m, a);
            self.lemma_value_same(new, m, t);
        }
    }

    /// Definitions speak of allocated variables only.
    pub proof fn lemma_same_below(
        self,
        model: Model,
        switches: Switches,
        m: Interp,
        a: Assignment,
        b: Assignment,
    )
        requires
            self.ok(),
            self.complete(model, switches, m, a),
            same_below(a, b, self.vars),
        ensures
            self.complete(model, switches, m, b),
    {
        assert forall|n: Seq<char>| #[trigger] self.bools.contains_key(n) implies (model.bools)(n)
            == b(self.bools[n].0 as int) by {
            assert(a(self.bools[n].0 as int) == b(self.bools[n].0 as int));
        }
        assert forall|k: Seq<u32>| #[trigger] self.guards.contains_key(k) implies b(
            self.guards[k] as int,
        ) == switches(k) by {
            assert(a(self.guards[k] as int) == b(self.guards[k] as int));
        }
        assert forall|v: int| 0 <= v < self.keys.len() && (#[trigger] self.keys[v]) is Some implies b(
            v,
        ) == atom_holds(self.terms, m, (self.keys[v]->0).atom()) by {
            assert(a(v) == b(v));
        }
        assert forall|i: int| 0 <= i < self.definitions.len() implies clause_true(
            b,
            #[trigger] self.definitions[i],
        ) by {
            let c = self.definitions[i];
            assert(clause_true(a, c));
            let k = choose|k: int| 0 <= k < c.len() && lit_true(a, #[trigger] c[k]);
            assert(lits_below(c, self.vars));
            assert(a(c[k].var.0 as int) == b(c[k].var.0 as int));
            assert(lit_true(b, c[k]));
        }
    }

    /// Definitions speak of allocated function symbols only.
    pub proof fn lemma_same_functions(
        self,
        model: Model,
        switches: Switches,
        m: Interp,
        n: Interp,
        a: Assignment,
    )
        requires
            self.ok(),
            self.complete(model, switches, m, a),
            forall|f: int, args: Seq<int>|
                0 <= f < self.fun_count ==> #[trigger] n(f, args) == m(f, args),
        ensures
            self.complete(model, switches, n, a),
    {
        assert forall|v: int| 0 <= v < self.keys.len() && (#[trigger] self.keys[v]) is Some implies a(
            v,
        ) == atom_holds(self.terms, n, (self.keys[v]->0).atom()) by {
            let key = self.keys[v]->0;
            assert(key.in_range(self.terms));
            crate::euf_core::lemma_term_id_range(key.lhs);
            crate::euf_core::lemma_term_id_range(key.rhs);
            self.lemma_value_function(m, n, key.lhs.id());
            self.lemma_value_function(m, n, key.rhs.id());
        }
        assert forall|x: Seq<char>, args: Seq<int>|
            #![trigger self.funs.contains_key(x), (model.funs)(x, args)]
            self.funs.contains_key(x) implies (model.funs)(x, args) == n(
            self.funs[x].id(),
            args,
        ) by {
            assert(n(self.funs[x].id(), args) == m(self.funs[x].id(), args));
        }
        assert forall|f: int, args: Seq<int>|
            #![trigger self.proxies.contains_key(f), n(f, args)]
            self.proxies.contains_key(f) implies n(f, args) == (self.proxies[f])(model) by {
            assert(n(f, args) == m(f, args));
        }
    }

    /// One more variable rules nothing out when every completion extends to it.
    pub proof fn lemma_realizable_var(
        self,
        new: Ground,
        choice: spec_fn(Model, Switches, Interp, Assignment) -> bool,
    )
        requires
            self.ok(),
            self.realizable(),
            forall|model: Model, switches: Switches, m: Interp, a: Assignment|
                self.complete(model, switches, m, a) && a(self.vars as int) == #[trigger] choice(
                    model,
                    switches,
                    m,
                    a,
                ) ==> new.complete(model, switches, m, a),
            forall|model: Model, switches: Switches, m: Interp, a: Assignment, b: Assignment|
                same_below(a, b, self.vars) ==> #[trigger] choice(model, switches, m, a)
                    == #[trigger] choice(model, switches, m, b),
        ensures
            new.realizable(),
    {
        assert forall|model: Model, switches: Switches| #[trigger] new.completable(
            model,
            switches,
        ) by {
            assert(self.completable(model, switches));
            let (m, a) = choose|m: Interp, a: Assignment| self.complete(model, switches, m, a);
            let b = with_value(a, self.vars as int, choice(model, switches, m, a));
            assert(same_below(a, b, self.vars));
            self.lemma_same_below(model, switches, m, a, b);
            assert(choice(model, switches, m, a) == choice(model, switches, m, b));
            assert(new.complete(model, switches, m, b));
        }
    }

    /// One more function symbol rules nothing out when every completion extends to it.
    pub proof fn lemma_realizable_fun(
        self,
        new: Ground,
        function: spec_fn(Model) -> spec_fn(Seq<int>) -> int,
    )
        requires
            self.ok(),
            self.realizable(),
            forall|model: Model, switches: Switches, m: Interp, a: Assignment|
                #[trigger] self.complete(model, switches, m, a) && (forall|args: Seq<int>| #[trigger]
                    m(self.fun_count as int, args) == function(model)(args)) ==> new.complete(
                    model,
                    switches,
                    m,
                    a,
                ),
        ensures
            new.realizable(),
    {
        assert forall|model: Model, switches: Switches| #[trigger] new.completable(
            model,
            switches,
        ) by {
            assert(self.completable(model, switches));
            let (m, a) = choose|m: Interp, a: Assignment| self.complete(model, switches, m, a);
            let n = with_function(m, self.fun_count as int, function(model));
            self.lemma_same_functions(model, switches, m, n, a);
            assert(forall|args: Seq<int>| #[trigger]
                n(self.fun_count as int, args) == function(model)(args));
            assert(new.complete(model, switches, n, a));
        }
    }

    /// Nothing is ruled out when every completion stays one.
    pub proof fn lemma_realizable_same(self, new: Ground)
        requires
            self.realizable(),
            forall|model: Model, switches: Switches, m: Interp, a: Assignment| #[trigger]
                self.complete(model, switches, m, a) ==> new.complete(model, switches, m, a),
        ensures
            new.realizable(),
    {
        assert forall|model: Model, switches: Switches| #[trigger] new.completable(
            model,
            switches,
        ) by {
            assert(self.completable(model, switches));
            let (m, a) = choose|m: Interp, a: Assignment| self.complete(model, switches, m, a);
            assert(new.complete(model, switches, m, a));
        }
    }
}

} // verus!
