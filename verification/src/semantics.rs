//! Mathematical meaning of terms over uninterpreted functions.
//!
//! A term table is a sequence of applications whose arguments are indices of earlier entries. An
//! interpretation gives every function symbol a total function over the integers, and thereby
//! every table entry a value.

use vstd::prelude::*;

verus! {

/// One function application: a symbol applied to earlier terms of the same table.
#[verifier::ext_equal]
pub struct TermView {
    /// Applied function symbol.
    pub fun: int,
    /// Indices of the argument terms.
    pub args: Seq<int>,
}

/// An interpretation of all function symbols as functions over the integers.
pub type Interp = spec_fn(int, Seq<int>) -> int;

/// Every argument of every term is an earlier term of the table.
pub open spec fn well_founded(terms: Seq<TermView>) -> bool {
    forall|t: int, k: int|
        0 <= t < terms.len() && 0 <= k < terms[t].args.len() ==> 0 <= (#[trigger] terms[t].args[k])
            < t
}

/// The value of term `t` under interpretation `m`.
pub open spec fn value(terms: Seq<TermView>, m: Interp, t: int) -> int
    decreases t, terms[t].args.len() + 1,
{
    if 0 <= t < terms.len() {
        m(terms[t].fun, arg_values(terms, m, t, terms[t].args.len() as int))
    } else {
        0
    }
}

/// The values of the first `n` arguments of term `t`.
pub open spec fn arg_values(terms: Seq<TermView>, m: Interp, t: int, n: int) -> Seq<int>
    decreases t, n,
{
    if n <= 0 {
        Seq::empty()
    } else {
        arg_values(terms, m, t, n - 1).push(
            if 0 <= terms[t].args[n - 1] < t {
                value(terms, m, terms[t].args[n - 1])
            } else {
                0
            },
        )
    }
}

/// The values of a sequence of terms.
pub open spec fn values(terms: Seq<TermView>, m: Interp, ts: Seq<int>) -> Seq<int> {
    Seq::new(ts.len(), |k: int| value(terms, m, ts[k]))
}

proof fn lemma_arg_values(terms: Seq<TermView>, m: Interp, t: int, n: int)
    requires
        well_founded(terms),
        0 <= t < terms.len(),
        0 <= n <= terms[t].args.len(),
    ensures
        arg_values(terms, m, t, n) =~= values(terms, m, terms[t].args.take(n)),
    decreases n,
{
    if n > 0 {
        lemma_arg_values(terms, m, t, n - 1);
    }
}

/// A term's value is its symbol's function applied to the values of its arguments.
pub proof fn lemma_value_unfold(terms: Seq<TermView>, m: Interp, t: int)
    requires
        well_founded(terms),
        0 <= t < terms.len(),
    ensures
        value(terms, m, t) == m(terms[t].fun, values(terms, m, terms[t].args)),
{
    lemma_arg_values(terms, m, t, terms[t].args.len() as int);
    assert(terms[t].args.take(terms[t].args.len() as int) =~= terms[t].args);
}

/// Applications of one symbol to arguments of equal value have equal values.
pub proof fn lemma_value_congruence(terms: Seq<TermView>, m: Interp, s: int, t: int)
    requires
        well_founded(terms),
        0 <= s < terms.len(),
        0 <= t < terms.len(),
        terms[s].fun == terms[t].fun,
        terms[s].args.len() == terms[t].args.len(),
        forall|k: int|
            0 <= k < terms[s].args.len() ==> value(terms, m, #[trigger] terms[s].args[k]) == value(
                terms,
                m,
                terms[t].args[k],
            ),
    ensures
        value(terms, m, s) == value(terms, m, t),
{
    lemma_value_unfold(terms, m, s);
    lemma_value_unfold(terms, m, t);
    assert(values(terms, m, terms[s].args) =~= values(terms, m, terms[t].args));
}

/// Values do not change when the table grows.
pub proof fn lemma_value_prefix(terms: Seq<TermView>, more: Seq<TermView>, m: Interp, t: int)
    requires
        well_founded(terms),
        well_founded(more),
        terms.len() <= more.len(),
        forall|i: int| 0 <= i < terms.len() ==> terms[i] == more[i],
        0 <= t < terms.len(),
    ensures
        value(terms, m, t) == value(more, m, t),
    decreases t,
{
    lemma_value_unfold(terms, m, t);
    lemma_value_unfold(more, m, t);
    assert(terms[t] == more[t]);
    assert forall|k: int| 0 <= k < terms[t].args.len() implies value(terms, m, terms[t].args[k])
        == value(more, m, terms[t].args[k]) by {
        lemma_value_prefix(terms, more, m, terms[t].args[k]);
    }
    assert(values(terms, m, terms[t].args) =~= values(more, m, more[t].args));
}

/// A set of terms that contains the arguments of its members.
pub open spec fn closed_under_args(terms: Seq<TermView>, set: spec_fn(int) -> bool) -> bool {
    forall|t: int, k: int|
        0 <= t < terms.len() && set(t) && 0 <= k < terms[t].args.len() ==> set(
            #[trigger] terms[t].args[k],
        )
}

/// The arguments of `s` and `t` have pairwise equal labels.
pub open spec fn same_signature(
    terms: Seq<TermView>,
    label: spec_fn(int) -> int,
    s: int,
    t: int,
) -> bool {
    &&& terms[s].fun == terms[t].fun
    &&& terms[s].args.len() == terms[t].args.len()
    &&& forall|k: int|
        0 <= k < terms[s].args.len() ==> label(#[trigger] terms[s].args[k]) == label(
            terms[t].args[k],
        )
}

/// Members of `set` with the same symbol and equally labelled arguments are labelled alike.
pub open spec fn congruence_on(
    terms: Seq<TermView>,
    set: spec_fn(int) -> bool,
    label: spec_fn(int) -> int,
) -> bool {
    forall|s: int, t: int|
        0 <= s < terms.len() && 0 <= t < terms.len() && set(s) && set(t) && #[trigger] same_signature(
            terms,
            label,
            s,
            t,
        ) ==> label(s) == label(t)
}

/// `t` is a member of `set` that applies `fun` to arguments labelled `vals`.
pub open spec fn labelled_application(
    terms: Seq<TermView>,
    set: spec_fn(int) -> bool,
    label: spec_fn(int) -> int,
    fun: int,
    vals: Seq<int>,
    t: int,
) -> bool {
    &&& 0 <= t < terms.len()
    &&& set(t)
    &&& terms[t].fun == fun
    &&& terms[t].args.len() == vals.len()
    &&& forall|k: int| 0 <= k < vals.len() ==> label(#[trigger] terms[t].args[k]) == vals[k]
}

/// The interpretation under which the members of `set` evaluate to their labels.
pub open spec fn label_interp(
    terms: Seq<TermView>,
    set: spec_fn(int) -> bool,
    label: spec_fn(int) -> int,
) -> Interp {
    |fun: int, vals: Seq<int>|
        if exists|t: int| labelled_application(terms, set, label, fun, vals, t) {
            label(choose|t: int| labelled_application(terms, set, label, fun, vals, t))
        } else {
            0
        }
}

/// Every congruence on an argument-closed set of terms is the equality of some interpretation.
pub proof fn lemma_label_interp(
    terms: Seq<TermView>,
    set: spec_fn(int) -> bool,
    label: spec_fn(int) -> int,
    t: int,
)
    requires
        well_founded(terms),
        closed_under_args(terms, set),
        congruence_on(terms, set, label),
        0 <= t < terms.len(),
        set(t),
    ensures
        value(terms, label_interp(terms, set, label), t) == label(t),
    decreases t,
{
    let m = label_interp(terms, set, label);
    lemma_value_unfold(terms, m, t);
    let vals = values(terms, m, terms[t].args);
    assert forall|k: int| 0 <= k < terms[t].args.len() implies label(#[trigger] terms[t].args[k])
        == vals[k] by {
        lemma_label_interp(terms, set, label, terms[t].args[k]);
    }
    assert(labelled_application(terms, set, label, terms[t].fun, vals, t));
    let c = choose|c: int| labelled_application(terms, set, label, terms[t].fun, vals, c);
    assert(labelled_application(terms, set, label, terms[t].fun, vals, c));
    assert(same_signature(terms, label, c, t));
}

/// An equality (`equal`) or disequality between two terms.
pub struct AtomView {
    /// Whether the atom claims equality.
    pub equal: bool,
    /// Left term.
    pub lhs: int,
    /// Right term.
    pub rhs: int,
}

/// The atom is true under `m`.
pub open spec fn atom_holds(terms: Seq<TermView>, m: Interp, atom: AtomView) -> bool {
    atom.equal == (value(terms, m, atom.lhs) == value(terms, m, atom.rhs))
}

/// All equalities among `atoms` are true under `m`.
pub open spec fn equalities_hold(terms: Seq<TermView>, m: Interp, atoms: Seq<AtomView>) -> bool {
    forall|i: int|
        0 <= i < atoms.len() && (#[trigger] atoms[i]).equal ==> atom_holds(terms, m, atoms[i])
}

/// The equalities among `atoms` imply that `lhs` and `rhs` are equal.
pub open spec fn entails_equal(
    terms: Seq<TermView>,
    atoms: Seq<AtomView>,
    lhs: int,
    rhs: int,
) -> bool {
    forall|m: Interp| #[trigger]
        equalities_hold(terms, m, atoms) ==> value(terms, m, lhs) == value(terms, m, rhs)
}

/// Atom `i` is a disequality that the equalities among `atoms` contradict.
pub open spec fn violated(terms: Seq<TermView>, atoms: Seq<AtomView>, i: int) -> bool {
    &&& 0 <= i < atoms.len()
    &&& !atoms[i].equal
    &&& entails_equal(terms, atoms, atoms[i].lhs, atoms[i].rhs)
}

/// All atoms are true under `m`.
pub open spec fn atoms_hold(terms: Seq<TermView>, m: Interp, atoms: Seq<AtomView>) -> bool {
    forall|i: int| 0 <= i < atoms.len() ==> #[trigger] atom_holds(terms, m, atoms[i])
}

/// Some interpretation makes all atoms true.
pub open spec fn satisfiable(terms: Seq<TermView>, atoms: Seq<AtomView>) -> bool {
    exists|m: Interp| atoms_hold(terms, m, atoms)
}

/// `t` is `root` itself or occurs below it.
pub open spec fn subterm(terms: Seq<TermView>, root: int, t: int) -> bool
    decreases root,
{
    ||| root == t
    ||| 0 <= root < terms.len() && exists|k: int|
        0 <= k < terms[root].args.len() && 0 <= (#[trigger] terms[root].args[k]) < root && subterm(
            terms,
            terms[root].args[k],
            t,
        )
}

/// `t` occurs in an endpoint of one of `atoms`.
pub open spec fn mentioned(terms: Seq<TermView>, atoms: Seq<AtomView>, t: int) -> bool {
    exists|i: int|
        0 <= i < atoms.len() && (subterm(terms, (#[trigger] atoms[i]).lhs, t) || subterm(
            terms,
            atoms[i].rhs,
            t,
        ))
}

/// Both endpoints of every atom are terms of the table.
pub open spec fn atoms_in_range(terms: Seq<TermView>, atoms: Seq<AtomView>) -> bool {
    forall|i: int|
        0 <= i < atoms.len() ==> 0 <= (#[trigger] atoms[i]).lhs < terms.len() && 0 <= atoms[i].rhs
            < terms.len()
}

/// An argument-closed set holds everything that occurs below its members.
pub proof fn lemma_subterm_closed(
    terms: Seq<TermView>,
    set: spec_fn(int) -> bool,
    root: int,
    t: int,
)
    requires
        well_founded(terms),
        closed_under_args(terms, set),
        0 <= root < terms.len(),
        set(root),
        subterm(terms, root, t),
    ensures
        set(t),
    decreases root,
{
    if root != t {
        let k = choose|k: int|
            0 <= k < terms[root].args.len() && 0 <= (#[trigger] terms[root].args[k]) < root
                && subterm(terms, terms[root].args[k], t);
        lemma_subterm_closed(terms, set, terms[root].args[k], t);
    }
}

/// The arguments of something below `root` are below `root`.
pub proof fn lemma_subterm_step(terms: Seq<TermView>, root: int, t: int, k: int)
    requires
        well_founded(terms),
        0 <= root < terms.len(),
        0 <= t < terms.len(),
        subterm(terms, root, t),
        0 <= k < terms[t].args.len(),
    ensures
        subterm(terms, root, terms[t].args[k]),
    decreases root,
{
    if root == t {
        assert(subterm(terms, terms[root].args[k], terms[t].args[k]));
    } else {
        let j = choose|j: int|
            0 <= j < terms[root].args.len() && 0 <= (#[trigger] terms[root].args[j]) < root
                && subterm(terms, terms[root].args[j], t);
        lemma_subterm_step(terms, terms[root].args[j], t, k);
    }
}

/// Everything below `root` is the same term in both tables.
pub open spec fn agree_below(a: Seq<TermView>, b: Seq<TermView>, root: int) -> bool {
    forall|t: int| #[trigger]
        subterm(a, root, t) ==> 0 <= t < a.len() && t < b.len() && a[t] == b[t]
}

proof fn lemma_below_argument(terms: Seq<TermView>, root: int, k: int, t: int)
    requires
        0 <= root < terms.len(),
        0 <= k < terms[root].args.len(),
        0 <= terms[root].args[k] < root,
        subterm(terms, terms[root].args[k], t),
    ensures
        subterm(terms, root, t),
{
}

/// The value of a term depends only on what occurs in it.
pub proof fn lemma_value_local(a: Seq<TermView>, b: Seq<TermView>, m: Interp, t: int)
    requires
        agree_below(a, b, t),
    ensures
        value(a, m, t) == value(b, m, t),
    decreases t, a[t].args.len() + 1,
{
    assert(subterm(a, t, t));
    lemma_arg_values_local(a, b, m, t, a[t].args.len() as int);
}

proof fn lemma_arg_values_local(a: Seq<TermView>, b: Seq<TermView>, m: Interp, t: int, n: int)
    requires
        0 <= t < a.len(),
        t < b.len(),
        a[t] == b[t],
        agree_below(a, b, t),
        n <= a[t].args.len(),
    ensures
        arg_values(a, m, t, n) == arg_values(b, m, t, n),
    decreases t, (if n <= 0 { 0 } else { n }) as nat,
{
    if n > 0 {
        lemma_arg_values_local(a, b, m, t, n - 1);
        let s = a[t].args[n - 1];
        if 0 <= s < t {
            assert forall|u: int| #[trigger] subterm(a, s, u) implies 0 <= u < a.len() && u < b.len()
                && a[u] == b[u] by {
                lemma_below_argument(a, t, n - 1, u);
            }
            lemma_value_local(a, b, m, s);
        }
    }
}

/// Whether atoms are jointly satisfiable depends only on the terms that occur in them: other entries
/// of the table make no difference.
pub proof fn lemma_satisfiable_local(a: Seq<TermView>, b: Seq<TermView>, atoms: Seq<AtomView>)
    requires
        forall|t: int| #[trigger]
            mentioned(a, atoms, t) ==> 0 <= t < a.len() && t < b.len() && a[t] == b[t],
    ensures
        satisfiable(a, atoms) == satisfiable(b, atoms),
{
    assert forall|m: Interp| #[trigger] atoms_hold(a, m, atoms) == atoms_hold(b, m, atoms) by {
        assert forall|i: int| 0 <= i < atoms.len() implies #[trigger] atom_holds(a, m, atoms[i])
            == atom_holds(b, m, atoms[i]) by {
            let atom = atoms[i];
            assert forall|t: int| #[trigger] subterm(a, atom.lhs, t) implies 0 <= t < a.len() && t
                < b.len() && a[t] == b[t] by {
                assert(mentioned(a, atoms, t));
            }
            assert forall|t: int| #[trigger] subterm(a, atom.rhs, t) implies 0 <= t < a.len() && t
                < b.len() && a[t] == b[t] by {
                assert(mentioned(a, atoms, t));
            }
            lemma_value_local(a, b, m, atom.lhs);
            lemma_value_local(a, b, m, atom.rhs);
        }
        if atoms_hold(a, m, atoms) {
            assert forall|i: int| 0 <= i < atoms.len() implies #[trigger] atom_holds(
                b,
                m,
                atoms[i],
            ) by {
                assert(atom_holds(a, m, atoms[i]));
            }
        }
        if atoms_hold(b, m, atoms) {
            assert forall|i: int| 0 <= i < atoms.len() implies #[trigger] atom_holds(
                a,
                m,
                atoms[i],
            ) by {
                assert(atom_holds(b, m, atoms[i]));
            }
        }
    }
    if satisfiable(a, atoms) {
        let m = choose|m: Interp| atoms_hold(a, m, atoms);
        assert(atoms_hold(b, m, atoms));
    }
    if satisfiable(b, atoms) {
        let m = choose|m: Interp| atoms_hold(b, m, atoms);
        assert(atoms_hold(a, m, atoms));
    }
}

} // verus!
