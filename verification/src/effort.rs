//! How many checkpoints a consistency check passes.

use crate::batch::supply_of;
use crate::euf_core::Fuel;
use crate::semantics::{atoms_in_range, mentioned, violated, AtomView, TermView};
use vstd::prelude::*;

verus! {

/// What is known of the number of checkpoints that will be granted: exactly `k`, where it holds of
/// `k`.
pub type Supply = spec_fn(nat) -> bool;

/// Exactly `n` checkpoints have been granted, and none refused.
pub open spec fn drawn(before: Supply, after: Supply, n: nat) -> bool {
    forall|k: nat| #[trigger] before(k) ==> k >= n && after((k - n) as nat)
}

/// A checkpoint was refused before `n` were granted, and the supply is used up.
pub open spec fn cut_short(before: Supply, after: Supply, n: nat) -> bool {
    forall|k: nat| #[trigger] before(k) ==> k < n && after(0)
}

/// Work that passes at least one and at most `bound` checkpoints: where it finishes all of them have
/// been granted, and where it does not one of them was refused.
pub open spec fn metered(before: Supply, after: Supply, finished: bool, bound: nat) -> bool {
    if finished {
        exists|n: nat| 1 <= n <= bound && #[trigger] drawn(before, after, n)
    } else {
        cut_short(before, after, bound)
    }
}

/// Work goes on where other work has finished.
pub proof fn lemma_metered_trans(
    before: Supply,
    mid: Supply,
    after: Supply,
    finished: bool,
    x: nat,
    y: nat,
)
    requires
        metered(before, mid, true, x),
        metered(mid, after, finished, y),
    ensures
        metered(before, after, finished, x + y),
{
    let m = choose|m: nat| 1 <= m <= x && #[trigger] drawn(before, mid, m);
    if finished {
        let n = choose|n: nat| 1 <= n <= y && #[trigger] drawn(mid, after, n);
        lemma_drawn_trans(before, mid, after, m, n);
        assert(drawn(before, after, m + n));
    } else {
        lemma_drawn_trans(before, mid, after, m, y);
    }
}

/// Where as many checkpoints are granted as the bound says, the work finishes.
pub proof fn lemma_enough(before: Supply, after: Supply, finished: bool, bound: nat, k: nat)
    requires
        metered(before, after, finished, bound),
        before(k),
        bound <= k,
    ensures
        finished,
{
}

/// A larger bound is a bound.
pub proof fn lemma_metered_more(before: Supply, after: Supply, finished: bool, x: nat, y: nat)
    requires
        metered(before, after, finished, x),
        x <= y,
    ensures
        metered(before, after, finished, y),
{
    if finished {
        let n = choose|n: nat| 1 <= n <= x && #[trigger] drawn(before, after, n);
        assert(1 <= n <= y && drawn(before, after, n));
    }
}

/// Two stretches of work draw what both of them draw.
pub proof fn lemma_drawn_trans(before: Supply, mid: Supply, after: Supply, m: nat, n: nat)
    requires
        drawn(before, mid, m),
    ensures
        drawn(mid, after, n) ==> drawn(before, after, m + n),
        cut_short(mid, after, n) ==> cut_short(before, after, m + n),
{
    assert forall|k: nat| #[trigger] before(k) implies k >= m && mid(
        (k - m) as nat,
    ) by {}
    if drawn(mid, after, n) {
        assert forall|k: nat| #[trigger] before(k) implies k >= m + n && after(
            (k - (m + n)) as nat,
        ) by {
            assert(mid((k - m) as nat));
            assert((k - m) as nat - n == k - (m + n));
        }
    }
    if cut_short(mid, after, n) {
        assert forall|k: nat| #[trigger] before(k) implies k < m + n && after(0) by {
            assert(mid((k - m) as nat));
        }
    }
}

/// The terms below `n` that the atoms mention, in ascending order.
pub open spec fn relevant_to(terms: Seq<TermView>, atoms: Seq<AtomView>, n: nat) -> Seq<int>
    decreases n,
{
    if n == 0 {
        Seq::empty()
    } else if mentioned(terms, atoms, n - 1) {
        relevant_to(terms, atoms, (n - 1) as nat).push(n - 1)
    } else {
        relevant_to(terms, atoms, (n - 1) as nat)
    }
}

/// All terms that the atoms mention, in ascending order.
pub open spec fn relevant(terms: Seq<TermView>, atoms: Seq<AtomView>) -> Seq<int> {
    relevant_to(terms, atoms, terms.len())
}

/// The number of arguments of the first `n` terms that are marked.
pub open spec fn marked_args(terms: Seq<TermView>, marks: spec_fn(int) -> bool, n: nat) -> nat
    decreases n,
{
    if n == 0 {
        0
    } else {
        marked_args(terms, marks, (n - 1) as nat) + if marks(n - 1) {
            terms[n - 1].args.len()
        } else {
            0
        }
    }
}

/// The terms that the atoms mention.
pub open spec fn mentions(terms: Seq<TermView>, atoms: Seq<AtomView>) -> spec_fn(int) -> bool {
    |t: int| mentioned(terms, atoms, t)
}

/// The checkpoints of collecting the relevant terms: one for every atom, and one for every endpoint
/// and every argument that is looked at.
pub open spec fn reach_cost(terms: Seq<TermView>, atoms: Seq<AtomView>) -> nat {
    3 * atoms.len() + marked_args(terms, mentions(terms, atoms), terms.len())
}

/// Marking more terms counts more arguments.
pub proof fn lemma_marked_more(
    terms: Seq<TermView>,
    marks: spec_fn(int) -> bool,
    more: spec_fn(int) -> bool,
    n: nat,
)
    requires
        forall|t: int| 0 <= t < n && #[trigger] marks(t) ==> more(t),
    ensures
        marked_args(terms, marks, n) <= marked_args(terms, more, n),
    decreases n,
{
    if n > 0 {
        lemma_marked_more(terms, marks, more, (n - 1) as nat);
    }
}

/// Marking one more term counts its arguments.
pub proof fn lemma_marked_one(
    terms: Seq<TermView>,
    marks: spec_fn(int) -> bool,
    more: spec_fn(int) -> bool,
    i: int,
    n: nat,
)
    requires
        0 <= i,
        !marks(i),
        more(i),
        forall|t: int| 0 <= t < n && t != i ==> #[trigger] more(t) == marks(t),
    ensures
        marked_args(terms, more, n) == marked_args(terms, marks, n) + if i < n {
            terms[i].args.len()
        } else {
            0
        },
    decreases n,
{
    if n > 0 {
        lemma_marked_one(terms, marks, more, i, (n - 1) as nat);
        assert(n - 1 != i ==> more(n - 1) == marks(n - 1));
    }
}

/// A partition of the terms: the representative of every term, and the ranks by which
/// representatives are chosen.
#[verifier::ext_equal]
pub struct Labels {
    /// Representative of each term.
    pub root: Seq<int>,
    /// Rank of each term.
    pub rank: Seq<int>,
}

/// The representatives after one class has been merged into another.
pub open spec fn relabelled(root: Seq<int>, from: int, to: int) -> Seq<int> {
    root.map_values(
        |x: int|
            if x == from {
                to
            } else {
                x
            },
    )
}

/// The partition with the classes of `a` and `b` united: the representative of higher rank stays,
/// of two with equal rank that of `a`, whose rank goes up.
pub open spec fn united(s: Labels, a: int, b: int) -> Labels {
    let l = s.root[a];
    let r = s.root[b];
    if l == r {
        s
    } else if s.rank[l] < s.rank[r] {
        Labels { root: relabelled(s.root, l, r), rank: s.rank }
    } else if s.rank[r] < s.rank[l] {
        Labels { root: relabelled(s.root, r, l), rank: s.rank }
    } else {
        Labels { root: relabelled(s.root, r, l), rank: s.rank.update(l, s.rank[l] + 1) }
    }
}

/// Every one of `size` terms in a class of its own.
pub open spec fn apart_labels(size: nat) -> Labels {
    Labels { root: Seq::new(size, |i: int| i), rank: Seq::new(size, |i: int| 0) }
}

/// The partition after the equalities among the first `n` atoms.
pub open spec fn merged_labels(size: nat, atoms: Seq<AtomView>, n: nat) -> Labels
    decreases n,
{
    if n == 0 {
        apart_labels(size)
    } else {
        let s = merged_labels(size, atoms, (n - 1) as nat);
        if atoms[n - 1].equal {
            united(s, atoms[n - 1].lhs, atoms[n - 1].rhs)
        } else {
            s
        }
    }
}

/// A pass over terms: the partition, the first term of every signature met so far, and whether
/// classes have been united.
pub struct Pass {
    /// The partition.
    pub labels: Labels,
    /// The first term of every signature.
    pub table: Map<(int, Seq<int>), int>,
    /// Whether classes have been united.
    pub changed: bool,
}

/// The signature of a term: its symbol, and the representatives of its arguments.
pub open spec fn signature_of(terms: Seq<TermView>, s: Labels, t: int) -> (int, Seq<int>) {
    (terms[t].fun, terms[t].args.map_values(|x: int| s.root[x]))
}

/// The pass after one more term: united with the first of its signature, or itself the first.
pub open spec fn stepped(terms: Seq<TermView>, pass: Pass, t: int) -> Pass {
    let key = signature_of(terms, pass.labels, t);
    if pass.table.contains_key(key) {
        let o = pass.table[key];
        Pass {
            labels: united(pass.labels, t, o),
            table: pass.table,
            changed: pass.changed || pass.labels.root[t] != pass.labels.root[o],
        }
    } else {
        Pass { table: pass.table.insert(key, t), ..pass }
    }
}

/// The pass after the first `i` terms of the list.
pub open spec fn pass_to(terms: Seq<TermView>, list: Seq<int>, s: Labels, i: nat) -> Pass
    decreases i,
{
    if i == 0 {
        Pass { labels: s, table: Map::empty(), changed: false }
    } else {
        stepped(terms, pass_to(terms, list, s, (i - 1) as nat), list[i - 1])
    }
}

/// The partition after `n` passes.
pub open spec fn labels_after(terms: Seq<TermView>, list: Seq<int>, s: Labels, n: nat) -> Labels
    decreases n,
{
    if n == 0 {
        s
    } else {
        pass_to(terms, list, labels_after(terms, list, s, (n - 1) as nat), list.len()).labels
    }
}

/// The pass after `n` passes unites classes.
pub open spec fn pass_changes(terms: Seq<TermView>, list: Seq<int>, s: Labels, n: nat) -> bool {
    pass_to(terms, list, labels_after(terms, list, s, n), list.len()).changed
}

/// The last of `n` passes unites no classes, and every one before it does.
pub open spec fn settles_from(terms: Seq<TermView>, list: Seq<int>, s: Labels, n: nat) -> bool {
    &&& n >= 1
    &&& !pass_changes(terms, list, s, (n - 1) as nat)
    &&& forall|j: nat| j + 1 < n ==> #[trigger] pass_changes(terms, list, s, j)
}

/// The checkpoints of the first `i` terms of a pass: one for each, and one for each argument.
pub open spec fn walk_cost(terms: Seq<TermView>, list: Seq<int>, i: nat) -> nat
    decreases i,
{
    if i == 0 {
        0
    } else {
        walk_cost(terms, list, (i - 1) as nat) + 1 + terms[list[i - 1]].args.len()
    }
}

/// The checkpoints of one pass.
pub open spec fn pass_cost(terms: Seq<TermView>, list: Seq<int>) -> nat {
    1 + walk_cost(terms, list, list.len())
}

/// Longer walks cost no less.
pub proof fn lemma_walk_cost(terms: Seq<TermView>, list: Seq<int>, i: nat, n: nat)
    requires
        i <= n,
    ensures
        walk_cost(terms, list, i) <= walk_cost(terms, list, n),
    decreases n,
{
    if i < n {
        lemma_walk_cost(terms, list, i, (n - 1) as nat);
    }
}

/// The checkpoints of looking for a violated disequality from atom `i` on.
pub open spec fn scan_cost(terms: Seq<TermView>, atoms: Seq<AtomView>, i: nat) -> nat
    decreases atoms.len() - i,
{
    if i >= atoms.len() {
        0
    } else if violated(terms, atoms, i as int) {
        1
    } else {
        1 + scan_cost(terms, atoms, i + 1)
    }
}

/// Congruence closure of the atoms' equalities takes `n` passes.
pub open spec fn settles(terms: Seq<TermView>, atoms: Seq<AtomView>, n: nat) -> bool {
    settles_from(
        terms,
        relevant(terms, atoms),
        merged_labels(terms.len(), atoms, atoms.len()),
        n,
    )
}

/// The checkpoints up to the end of a congruence closure that takes `n` passes.
pub open spec fn closing_cost(terms: Seq<TermView>, atoms: Seq<AtomView>, n: nat) -> nat {
    reach_cost(terms, atoms) + atoms.len() + n * pass_cost(terms, relevant(terms, atoms))
}

/// The checkpoints of a whole check whose congruence closure takes `n` passes.
pub open spec fn check_cost(terms: Seq<TermView>, atoms: Seq<AtomView>, n: nat) -> nat {
    closing_cost(terms, atoms, n) + scan_cost(terms, atoms, 0)
}

/// What a check draws from its budget: all that it costs, or too little to finish.
pub open spec fn check_draws(
    terms: Seq<TermView>,
    atoms: Seq<AtomView>,
    before: Supply,
    after: Supply,
    finished: bool,
) -> bool {
    if finished {
        exists|n: nat| #[trigger]
            settles(terms, atoms, n) && drawn(before, after, check_cost(terms, atoms, n))
    } else {
        forall|n: nat| #[trigger]
            settles(terms, atoms, n) ==> cut_short(before, after, check_cost(terms, atoms, n))
    }
}

/// The number of passes is determined.
pub proof fn lemma_settles_once(terms: Seq<TermView>, atoms: Seq<AtomView>, m: nat, n: nat)
    requires
        settles(terms, atoms, m),
        settles(terms, atoms, n),
    ensures
        m == n,
{
    let list = relevant(terms, atoms);
    let s = merged_labels(terms.len(), atoms, atoms.len());
    if m < n {
        assert(pass_changes(terms, list, s, (m - 1) as nat));
    } else if n < m {
        assert(pass_changes(terms, list, s, (n - 1) as nat));
    }
}

/// A check that finishes on some fuel finishes on every greater amount, and uses as much.
pub proof fn lemma_more_fuel(
    terms: Seq<TermView>,
    atoms: Seq<AtomView>,
    before: Fuel,
    after: Fuel,
    more: Fuel,
    rest: Fuel,
    finished: bool,
)
    requires
        check_draws(terms, atoms, supply_of(&before), supply_of(&after), true),
        check_draws(terms, atoms, supply_of(&more), supply_of(&rest), finished),
        before.left() <= more.left(),
    ensures
        finished,
        more.left() - rest.left() == before.left() - after.left(),
{
    let m = choose|m: nat| #[trigger]
        settles(terms, atoms, m) && drawn(
            supply_of(&before),
            supply_of(&after),
            check_cost(terms, atoms, m),
        );
    assert(supply_of(&before)(before.left()));
    assert(supply_of(&more)(more.left()));
    if finished {
        let n = choose|n: nat| #[trigger]
            settles(terms, atoms, n) && drawn(
                supply_of(&more),
                supply_of(&rest),
                check_cost(terms, atoms, n),
            );
        lemma_settles_once(terms, atoms, m, n);
    }
}

/// The number of arguments of all terms.
pub open spec fn all_args(terms: Seq<TermView>, n: nat) -> nat
    decreases n,
{
    if n == 0 {
        0
    } else {
        all_args(terms, (n - 1) as nat) + terms[n - 1].args.len()
    }
}

/// The most checkpoints that a check of `m` atoms passes.
pub open spec fn check_bound(terms: Seq<TermView>, m: nat) -> nat {
    let args = all_args(terms, terms.len());
    5 * m + args + (terms.len() + 1) * (1 + terms.len() + args)
}

/// Representatives are terms that represent themselves.
spec fn labels_ok(s: Labels, size: nat) -> bool {
    &&& s.root.len() == size
    &&& s.rank.len() == size
    &&& forall|i: int|
        0 <= i < size ==> 0 <= #[trigger] s.root[i] < size && s.root[s.root[i]] == s.root[i]
}

/// The number of representatives among the first `n` terms.
spec fn root_count(s: Labels, n: nat) -> nat
    decreases n,
{
    if n == 0 {
        0
    } else {
        root_count(s, (n - 1) as nat) + if s.root[n - 1] == n - 1 {
            1nat
        } else {
            0
        }
    }
}

proof fn lemma_root_count(s: Labels, n: nat)
    ensures
        root_count(s, n) <= n,
    decreases n,
{
    if n > 0 {
        lemma_root_count(s, (n - 1) as nat);
    }
}

/// Relabelling takes away one representative.
proof fn lemma_relabelled(s: Labels, t: Labels, from: int, to: int, size: nat, n: nat)
    requires
        labels_ok(s, size),
        0 <= from < size,
        0 <= to < size,
        from != to,
        s.root[from] == from,
        s.root[to] == to,
        t.root == relabelled(s.root, from, to),
        n <= size,
    ensures
        root_count(t, n) == root_count(s, n) - if from < n {
            1int
        } else {
            0
        },
    decreases n,
{
    if n > 0 {
        lemma_relabelled(s, t, from, to, size, (n - 1) as nat);
        assert(0 <= s.root[n - 1] < size);
    }
}

proof fn lemma_united(s: Labels, a: int, b: int, size: nat)
    requires
        labels_ok(s, size),
        0 <= a < size,
        0 <= b < size,
    ensures
        labels_ok(united(s, a, b), size),
        s.root[a] == s.root[b] ==> united(s, a, b) == s,
        s.root[a] != s.root[b] ==> root_count(united(s, a, b), size) + 1 == root_count(s, size),
{
    let l = s.root[a];
    let r = s.root[b];
    let t = united(s, a, b);
    if l != r {
        let (from, to) = if s.rank[l] < s.rank[r] {
            (l, r)
        } else {
            (r, l)
        };
        assert(t.root == relabelled(s.root, from, to));
        assert(s.root[l] == l && s.root[r] == r);
        lemma_relabelled(s, t, from, to, size, size);
        assert forall|i: int| 0 <= i < size implies 0 <= #[trigger] t.root[i] < size
            && t.root[t.root[i]] == t.root[i] by {
            assert(0 <= s.root[i] < size && s.root[s.root[i]] == s.root[i]);
        }
    }
}

/// The terms of the list and their arguments are terms.
spec fn list_ok(terms: Seq<TermView>, list: Seq<int>) -> bool {
    forall|i: int| 0 <= i < list.len() ==> 0 <= #[trigger] list[i] < terms.len()
}

proof fn lemma_pass_count(terms: Seq<TermView>, list: Seq<int>, s: Labels, i: nat)
    requires
        list_ok(terms, list),
        labels_ok(s, terms.len()),
        i <= list.len(),
    ensures
        ({
            let pass = pass_to(terms, list, s, i);
            &&& labels_ok(pass.labels, terms.len())
            &&& forall|key: (int, Seq<int>)| #[trigger]
                pass.table.contains_key(key) ==> 0 <= pass.table[key] < terms.len()
            &&& root_count(pass.labels, terms.len()) + if pass.changed {
                1nat
            } else {
                0
            } <= root_count(s, terms.len())
        }),
    decreases i,
{
    if i > 0 {
        lemma_pass_count(terms, list, s, (i - 1) as nat);
        let before = pass_to(terms, list, s, (i - 1) as nat);
        let t = list[i - 1];
        let key = signature_of(terms, before.labels, t);
        assert(0 <= t < terms.len());
        if before.table.contains_key(key) {
            lemma_united(before.labels, t, before.table[key], terms.len());
        }
    }
}

proof fn lemma_passes_count(terms: Seq<TermView>, list: Seq<int>, s: Labels, n: nat)
    requires
        list_ok(terms, list),
        labels_ok(s, terms.len()),
        forall|j: nat| j < n ==> #[trigger] pass_changes(terms, list, s, j),
    ensures
        labels_ok(labels_after(terms, list, s, n), terms.len()),
        root_count(labels_after(terms, list, s, n), terms.len()) + n <= root_count(s, terms.len()),
    decreases n,
{
    if n > 0 {
        lemma_passes_count(terms, list, s, (n - 1) as nat);
        assert(pass_changes(terms, list, s, (n - 1) as nat));
        lemma_pass_count(
            terms,
            list,
            labels_after(terms, list, s, (n - 1) as nat),
            list.len(),
        );
    }
}

proof fn lemma_settling(terms: Seq<TermView>, list: Seq<int>, s: Labels, p: nat) -> (n: nat)
    requires
        list_ok(terms, list),
        labels_ok(s, terms.len()),
        forall|j: nat| j < p ==> #[trigger] pass_changes(terms, list, s, j),
    ensures
        settles_from(terms, list, s, n),
        n <= terms.len() + 1,
    decreases terms.len() + 1 - p,
{
    lemma_passes_count(terms, list, s, p);
    lemma_root_count(s, terms.len());
    if pass_changes(terms, list, s, p) {
        assert forall|j: nat| j < p + 1 implies #[trigger] pass_changes(terms, list, s, j) by {}
        lemma_settling(terms, list, s, p + 1)
    } else {
        p + 1
    }
}

proof fn lemma_merged_ok(terms: Seq<TermView>, atoms: Seq<AtomView>, n: nat)
    requires
        atoms_in_range(terms, atoms),
        n <= atoms.len(),
    ensures
        labels_ok(merged_labels(terms.len(), atoms, n), terms.len()),
    decreases n,
{
    if n > 0 {
        lemma_merged_ok(terms, atoms, (n - 1) as nat);
        let atom = atoms[n - 1];
        assert(0 <= atom.lhs < terms.len() && 0 <= atom.rhs < terms.len());
        lemma_united(
            merged_labels(terms.len(), atoms, (n - 1) as nat),
            atom.lhs,
            atom.rhs,
            terms.len(),
        );
    }
}

proof fn lemma_relevant_ok(terms: Seq<TermView>, atoms: Seq<AtomView>, n: nat)
    requires
        n <= terms.len(),
    ensures
        list_ok(terms, relevant_to(terms, atoms, n)),
        relevant_to(terms, atoms, n).len() <= n,
        walk_cost(terms, relevant_to(terms, atoms, n), relevant_to(terms, atoms, n).len()) <= n
            + all_args(terms, n),
        marked_args(terms, mentions(terms, atoms), n) <= all_args(terms, n),
    decreases n,
{
    if n > 0 {
        lemma_relevant_ok(terms, atoms, (n - 1) as nat);
        let before = relevant_to(terms, atoms, (n - 1) as nat);
        if mentioned(terms, atoms, n - 1) {
            lemma_walk_same(terms, before, before.push(n - 1), before.len());
        }
    }
}

proof fn lemma_walk_same(terms: Seq<TermView>, a: Seq<int>, b: Seq<int>, n: nat)
    requires
        n <= a.len(),
        n <= b.len(),
        forall|i: int| 0 <= i < n ==> a[i] == b[i],
    ensures
        walk_cost(terms, a, n) == walk_cost(terms, b, n),
    decreases n,
{
    if n > 0 {
        lemma_walk_same(terms, a, b, (n - 1) as nat);
    }
}

proof fn lemma_scan_bound(terms: Seq<TermView>, atoms: Seq<AtomView>, i: nat)
    requires
        i <= atoms.len(),
    ensures
        scan_cost(terms, atoms, i) <= atoms.len() - i,
    decreases atoms.len() - i,
{
    if i < atoms.len() {
        lemma_scan_bound(terms, atoms, i + 1);
    }
}

/// Every congruence closure settles, after at most one pass more than there are terms.
pub proof fn lemma_settles(terms: Seq<TermView>, atoms: Seq<AtomView>) -> (n: nat)
    requires
        atoms_in_range(terms, atoms),
    ensures
        settles(terms, atoms, n),
        n <= terms.len() + 1,
{
    lemma_relevant_ok(terms, atoms, terms.len());
    lemma_merged_ok(terms, atoms, atoms.len());
    lemma_settling(
        terms,
        relevant(terms, atoms),
        merged_labels(terms.len(), atoms, atoms.len()),
        0,
    )
}

/// A check keeps within its bound.
pub proof fn lemma_check_bound(terms: Seq<TermView>, atoms: Seq<AtomView>, n: nat, m: nat)
    requires
        atoms_in_range(terms, atoms),
        settles(terms, atoms, n),
        atoms.len() <= m,
    ensures
        1 <= check_cost(terms, atoms, n) <= check_bound(terms, m),
{
    let k = lemma_settles(terms, atoms);
    lemma_settles_once(terms, atoms, n, k);
    lemma_relevant_ok(terms, atoms, terms.len());
    lemma_scan_bound(terms, atoms, 0);
    let c = pass_cost(terms, relevant(terms, atoms));
    let args = all_args(terms, terms.len());
    let top = 1 + terms.len() + args;
    assert(1 <= n * c <= (terms.len() + 1) * top) by (nonlinear_arith)
        requires
            1 <= n <= terms.len() + 1,
            1 <= c <= top,
    ;
}

/// A check is metered, whatever atoms it looks at.
pub proof fn lemma_check_metered(
    terms: Seq<TermView>,
    atoms: Seq<AtomView>,
    before: Supply,
    after: Supply,
    finished: bool,
    m: nat,
)
    requires
        atoms_in_range(terms, atoms),
        check_draws(terms, atoms, before, after, finished),
        atoms.len() <= m,
    ensures
        metered(before, after, finished, check_bound(terms, m)),
{
    if finished {
        let n = choose|n: nat| #[trigger]
            settles(terms, atoms, n) && drawn(before, after, check_cost(terms, atoms, n));
        lemma_check_bound(terms, atoms, n, m);
        assert(drawn(before, after, check_cost(terms, atoms, n)));
    } else {
        let n = lemma_settles(terms, atoms);
        lemma_check_bound(terms, atoms, n, m);
        assert(cut_short(before, after, check_cost(terms, atoms, n)));
    }
}

} // verus!
