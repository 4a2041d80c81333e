//! Equality with uninterpreted functions over caller-assigned symbol and term identifiers.
//!
//! This module provides a minimal congruence-closure checker. Callers own any surface-level symbol
//! tables, allocate opaque [`FunId`] handles inside [`EufSolver`], intern terms once, then ask
//! whether a set of equality and disequality atoms is theory-consistent.

use crate::batch::{lemma_single, stock, supply_of, Batch};
use crate::effort::{
    apart_labels, check_cost, check_draws, closing_cost, cut_short, drawn, labels_after, lemma_drawn_trans,
    lemma_marked_more, lemma_marked_one, lemma_settles_once, lemma_walk_cost, marked_args, mentions, merged_labels,
    pass_changes, pass_cost, pass_to, reach_cost, relabelled, relevant, relevant_to, scan_cost, settles,
    settles_from, signature_of, stepped, united, walk_cost, Labels,
};
use crate::semantics::{
    atoms_hold, atoms_in_range, closed_under_args, congruence_on, equalities_hold, label_interp,
    lemma_label_interp, lemma_subterm_closed, lemma_subterm_step, lemma_value_congruence, mentioned,
    satisfiable, same_signature, subterm, value, violated, well_founded, AtomView, Interp, TermView,
};
use crate::sums::{lemma_sum_ones, lemma_sum_pair, lemma_sum_update, sum_to};
use crate::text::{decimal, decimal_text, joined3};
use vstd::prelude::*;

verus! {

/// Cooperative budget checked by long-running search loops.
pub trait CheckBudget {
    /// The budget never asks its user to stop.
    spec fn unlimited(&self) -> bool;

    /// The budget grants exactly `k` more checkpoints, and refuses every one after them.
    spec fn supply(&self, k: nat) -> bool;

    /// Consumes one unit of budget and returns `false` when the caller must stop.
    fn checkpoint(&mut self) -> (go: bool)
        ensures
            old(self).unlimited() ==> go && final(self).unlimited(),
            forall|k: nat| #[trigger]
                old(self).supply(k) ==> go == (k > 0) && final(self).supply(
                    if k > 0 {
                        (k - 1) as nat
                    } else {
                        0
                    },
                ),
    ;
}

/// Deterministic work budget counted in abstract solver steps.
#[derive(Debug, Clone, Copy, PartialEq, Eq)]
pub struct Fuel {
    /// Remaining checkpoint count before the next checkpoint interrupts the run.
    remaining: u64,
}

impl Fuel {
    /// The number of checkpoints still available.
    pub closed spec fn left(self) -> nat {
        self.remaining as nat
    }

    /// Creates a budget that allows exactly `remaining` successful checkpoints.
    pub fn new(remaining: u64) -> (fuel: Self)
        ensures
            fuel.left() == remaining,
    {
        Self { remaining }
    }

    /// Returns the number of checkpoints still available.
    pub fn remaining(self) -> (n: u64)
        ensures
            n == self.left(),
    {
        self.remaining
    }
}

impl CheckBudget for Fuel {
    open spec fn unlimited(&self) -> bool {
        false
    }

    open spec fn supply(&self, k: nat) -> bool {
        self.left() == k
    }

    fn checkpoint(&mut self) -> (go: bool)
        ensures
            go == (old(self).left() > 0),
            final(self).left() == if old(self).left() > 0 {
                old(self).left() - 1
            } else {
                0
            },
    {
        if self.remaining == 0 {
            return false;
        }
        self.remaining -= 1;
        true
    }
}

/// Sentinel budget for callers that intentionally want an unbounded search.
pub struct UnlimitedBudget;

impl CheckBudget for UnlimitedBudget {
    open spec fn unlimited(&self) -> bool {
        true
    }

    open spec fn supply(&self, k: nat) -> bool {
        false
    }

    fn checkpoint(&mut self) -> (go: bool) {
        true
    }
}

/// Stable identifier for one interned term.
#[derive(Debug, Clone, Copy, PartialEq, Eq, Hash, PartialOrd, Ord, Structural)]
pub struct TermId(u32);

impl TermId {
    /// The index behind this identifier.
    pub closed spec fn id(self) -> int {
        self.0 as int
    }

    /// Returns the internal dense index backing this term identifier.
    pub fn index(self) -> (i: usize)
        ensures
            i == self.id(),
    {
        self.0 as usize
    }
}

/// Stable identifier for one interned function symbol.
#[derive(Debug, Clone, Copy, PartialEq, Eq, Hash, PartialOrd, Ord, Structural)]
pub struct FunId(u32);

impl FunId {
    /// The index behind this identifier.
    pub closed spec fn id(self) -> int {
        self.0 as int
    }

    /// Returns the internal dense index backing this function identifier.
    pub fn index(self) -> (i: usize)
        ensures
            i == self.id(),
    {
        self.0 as usize
    }
}

/// Term identifiers are equal exactly when their indices are.
pub broadcast proof fn lemma_term_id_injective(a: TermId, b: TermId)
    ensures
        #![trigger a.id(), b.id()]
        a.id() == b.id() <==> a == b,
{
}

/// Indices are not negative.
pub proof fn lemma_fun_id(a: FunId)
    ensures
        0 <= a.id() <= u32::MAX,
{
}

/// Indices are not negative.
pub proof fn lemma_term_id_range(a: TermId)
    ensures
        0 <= a.id() <= u32::MAX,
{
}

/// One interned term represented as a function symbol plus argument terms.
///
/// Constants are encoded as nullary applications whose argument list is empty.
#[derive(Debug, Clone, PartialEq, Eq, Hash)]
pub struct Term {
    /// Applied function symbol.
    fun: FunId,
    /// Argument term identifiers in call order.
    args: Vec<TermId>,
}

impl Term {
    /// The applied symbol.
    pub closed spec fn spec_fun(&self) -> FunId {
        self.fun
    }

    /// The arguments in call order.
    pub closed spec fn spec_args(&self) -> Seq<TermId> {
        self.args@
    }

    /// The application as a mathematical term.
    pub open spec fn app(&self) -> TermView {
        TermView {
            fun: self.spec_fun().id(),
            args: self.spec_args().map_values(|a: TermId| a.id()),
        }
    }

    /// Returns the function symbol applied by this term.
    pub fn fun(&self) -> (fun: FunId)
        ensures
            fun == self.spec_fun(),
    {
        self.fun
    }

    /// Returns the argument terms in application order.
    pub fn args(&self) -> (args: &[TermId])
        ensures
            args@ == self.spec_args(),
    {
        self.args.as_slice()
    }
}

/// One theory atom to check.
#[derive(Debug, Clone, PartialEq, Eq)]
pub enum TheoryAtom {
    /// Equality constraint.
    Eq(TermId, TermId),
    /// Disequality constraint.
    Diseq(TermId, TermId),
}

impl TheoryAtom {
    /// The atom over term indices.
    pub open spec fn atom(self) -> AtomView {
        match self {
            TheoryAtom::Eq(l, r) => AtomView { equal: true, lhs: l.id(), rhs: r.id() },
            TheoryAtom::Diseq(l, r) => AtomView { equal: false, lhs: l.id(), rhs: r.id() },
        }
    }
}

/// The atoms over term indices.
pub open spec fn atoms_view(atoms: Seq<TheoryAtom>) -> Seq<AtomView> {
    atoms.map_values(|a: TheoryAtom| a.atom())
}

/// Human-readable explanation for a theory conclusion.
#[derive(Debug, Clone, PartialEq, Eq)]
pub struct Explanation {
    /// Textual reason attached to the explanation.
    pub reason: String,
}

/// Inconsistency discovered by the checker.
#[derive(Debug, Clone, PartialEq, Eq)]
pub struct TheoryConflict {
    /// Left side of the conflicting disequality.
    pub left: TermId,
    /// Right side of the conflicting disequality.
    pub right: TermId,
    /// Explanation for why the conflict is implied.
    pub explanation: Explanation,
}

/// The message of a conflict.
pub open spec fn conflict_text(conflict: TheoryConflict) -> Seq<char> {
    "conflicting disequality between terms TermId("@ + decimal_text(conflict.left.id() as nat)
        + ") and TermId("@ + decimal_text(conflict.right.id() as nat) + "): "@
        + conflict.explanation.reason@
}

impl TheoryConflict {
    /// Returns the message of this conflict.
    pub fn message(&self) -> (text: String)
        ensures
            text@ == conflict_text(*self),
    {
        let left = decimal(self.left.0 as u64);
        let mut text = joined3(
            "conflicting disequality between terms TermId(",
            left.as_str(),
            ") and TermId(",
        );
        let right = decimal(self.right.0 as u64);
        text.append(right.as_str());
        text.append("): ");
        text.append(self.explanation.reason.as_str());
        text
    }
}

/// Outcome of a budget-aware consistency check.
#[derive(Debug, Clone, PartialEq, Eq)]
pub enum EufCheckOutcome {
    /// The atom set is jointly consistent.
    Consistent,
    /// The atom set implies a concrete theory contradiction.
    Conflict(TheoryConflict),
    /// The caller-provided budget was exhausted before the check finished.
    Interrupted,
}

/// The conflict names the first disequality among `atoms` that the equalities contradict.
pub open spec fn first_violation(
    terms: Seq<TermView>,
    atoms: Seq<TheoryAtom>,
    conflict: TheoryConflict,
) -> bool {
    &&& conflict.explanation.reason@ == "equality closure implies both sides are equal"@
    &&& exists|i: int|
        {
            &&& #[trigger] violated(terms, atoms_view(atoms), i)
            &&& atoms[i] == TheoryAtom::Diseq(conflict.left, conflict.right)
            &&& forall|j: int| 0 <= j < i ==> !violated(terms, atoms_view(atoms), j)
        }
}

/// Two to the power of `n`.
spec fn pow2(n: nat) -> nat
    decreases n,
{
    if n == 0 {
        1
    } else {
        2 * pow2((n - 1) as nat)
    }
}

proof fn lemma_pow2_monotone(a: nat, b: nat)
    requires
        a <= b,
    ensures
        pow2(a) <= pow2(b),
    decreases b,
{
    if a < b {
        lemma_pow2_monotone(a, (b - 1) as nat);
    }
}

proof fn lemma_pow2_64()
    ensures
        pow2(64) == 0x1_0000_0000_0000_0000,
{
    reveal_with_fuel(pow2, 65);
}

/// Disjoint-set union data for merging term indices under equality.
struct Congruence {
    /// Parent pointers to the representative for each element index.
    parent: Vec<usize>,
    /// Union-by-rank metadata to keep paths shallow.
    rank: Vec<u8>,
    /// Class size of each representative, zero for every other element.
    weight: Ghost<Seq<nat>>,
}

impl Congruence {
    spec fn wf(&self) -> bool {
        &&& self.rank.len() == self.parent.len()
        &&& self.weight@.len() == self.parent.len()
        &&& forall|i: int| 0 <= i < self.parent.len() ==> (#[trigger] self.parent[i]) < self.parent.len()
        &&& forall|i: int|
            0 <= i < self.parent.len() && self.parent[i] != i ==> self.rank[i] < self.rank[(
            #[trigger] self.parent[i]) as int]
        &&& forall|i: int|
            0 <= i < self.parent.len() && (#[trigger] self.parent[i]) == i ==> self.weight@[i]
                >= pow2(self.rank[i] as nat)
        &&& forall|i: int|
            0 <= i < self.parent.len() && (#[trigger] self.parent[i]) != i ==> self.weight@[i] == 0
        &&& sum_to(self.weight@, self.parent.len() as int) == self.parent.len()
    }

    /// The representative of `i`.
    spec fn root(&self, i: int) -> int
        decreases 256 - self.rank[i],
        when self.wf() && 0 <= i < self.parent.len()
    {
        if self.parent[i] == i {
            i
        } else {
            self.root(self.parent[i] as int)
        }
    }

    spec fn size(&self) -> int {
        self.parent.len() as int
    }

    /// Representatives and ranks as mathematical values.
    spec fn partition(&self) -> Labels {
        Labels {
            root: Seq::new(self.parent.len() as nat, |i: int| self.root(i)),
            rank: Seq::new(self.parent.len() as nat, |i: int| self.rank[i] as int),
        }
    }

    /// Number of representatives among the first `n` elements.
    spec fn roots_to(&self, n: int) -> nat
        decreases n,
    {
        if n <= 0 {
            0
        } else {
            self.roots_to(n - 1) + if self.parent[n - 1] == n - 1 {
                1nat
            } else {
                0
            }
        }
    }

    spec fn roots(&self) -> nat {
        self.roots_to(self.size())
    }

    proof fn lemma_root(&self, i: int)
        requires
            self.wf(),
            0 <= i < self.size(),
        ensures
            0 <= self.root(i) < self.size(),
            self.parent[self.root(i)] == self.root(i),
            self.root(self.root(i)) == self.root(i),
            self.rank[i] <= self.rank[self.root(i)],
            self.parent[i] != i ==> self.rank[i] < self.rank[self.root(i)],
        decreases 256 - self.rank[i],
    {
        if self.parent[i] != i {
            self.lemma_root(self.parent[i] as int);
        }
    }

    /// Redirecting one non-representative to its own representative keeps all representatives.
    proof fn lemma_compress(&self, new: &Self, v: int, j: int)
        requires
            self.wf(),
            new.wf(),
            0 <= v < self.size(),
            0 <= j < self.size(),
            self.parent[v] != v,
            new.parent@ == self.parent@.update(v, self.root(v) as usize),
            new.rank@ == self.rank@,
        ensures
            new.root(j) == self.root(j),
        decreases 256 - self.rank[j],
    {
        self.lemma_root(v);
        if j == v {
            let r = self.root(v);
            assert(new.parent[r] == r);
            assert(new.root(r) == r);
        } else if self.parent[j] != j {
            self.lemma_compress(new, v, self.parent[j] as int);
        }
    }

    /// Linking representative `a` below representative `b` moves exactly the class of `a`.
    proof fn lemma_link(&self, new: &Self, a: int, b: int, j: int)
        requires
            self.wf(),
            new.wf(),
            0 <= a < self.size(),
            0 <= b < self.size(),
            0 <= j < self.size(),
            a != b,
            self.parent[a] == a,
            self.parent[b] == b,
            new.parent@ == self.parent@.update(a, b as usize),
            new.rank.len() == self.rank.len(),
        ensures
            new.root(j) == if self.root(j) == a {
                b
            } else {
                self.root(j)
            },
        decreases 256 - self.rank[j],
    {
        if j == a {
            assert(new.parent[b] == b);
            assert(new.root(b) == b);
        } else if self.parent[j] != j {
            self.lemma_link(new, a, b, self.parent[j] as int);
        }
    }

    proof fn lemma_roots_link(&self, new: &Self, a: int, b: int, n: int)
        requires
            0 <= a < self.size(),
            0 <= b < self.size(),
            a != b,
            self.parent[a] == a,
            new.parent@ == self.parent@.update(a, b as usize),
            b as usize == b,
            0 <= n <= self.size(),
        ensures
            new.roots_to(n) == if a < n {
                self.roots_to(n) - 1
            } else {
                self.roots_to(n) as int
            },
        decreases n,
    {
        if n > 0 {
            self.lemma_roots_link(new, a, b, n - 1);
        }
    }

    proof fn lemma_roots_same(&self, new: &Self, n: int)
        requires
            new.size() == self.size(),
            0 <= n <= self.size(),
            forall|i: int| 0 <= i < self.size() ==> (self.parent[i] == i <==> new.parent[i] == i),
        ensures
            new.roots_to(n) == self.roots_to(n),
        decreases n,
    {
        if n > 0 {
            self.lemma_roots_same(new, n - 1);
        }
    }

    /// Builds `size` singleton sets labeled `0..size`.
    fn new(size: usize) -> (cc: Self)
        ensures
            cc.wf(),
            cc.size() == size,
            forall|i: int| 0 <= i < size ==> cc.root(i) == i,
            cc.partition() == apart_labels(size as nat),
    {
        let mut parent: Vec<usize> = Vec::new();
        let mut rank: Vec<u8> = Vec::new();
        let mut i: usize = 0;
        while i < size
            invariant
                i <= size,
                parent.len() == i,
                rank.len() == i,
                forall|j: int| 0 <= j < i ==> parent[j] == j,
                forall|j: int| 0 <= j < i ==> rank[j] == 0,
            decreases size - i,
        {
            parent.push(i);
            rank.push(0);
            i += 1;
        }
        let ghost weight = Seq::new(size as nat, |j: int| 1nat);
        proof {
            lemma_sum_ones(weight, size as int);
        }
        let cc = Self { parent, rank, weight: Ghost(weight) };
        proof {
            assert(cc.partition() =~= apart_labels(size as nat));
        }
        cc
    }

    /// Returns the representative for `value` with path compression.
    fn find(&mut self, value: usize) -> (root: usize)
        requires
            old(self).wf(),
            value < old(self).size(),
        ensures
            final(self).wf(),
            final(self).size() == old(self).size(),
            root == old(self).root(value as int),
            root < old(self).size(),
            forall|j: int|
                0 <= j < old(self).size() ==> #[trigger] final(self).root(j) == old(self).root(j),
            final(self).rank@ == old(self).rank@,
            final(self).partition() == old(self).partition(),
            final(self).weight@ == old(self).weight@,
            forall|j: int|
                0 <= j < old(self).size() ==> ((#[trigger] final(self).parent[j]) == j <==> old(self).parent[j] == j),
        decreases 256 - old(self).rank[value as int],
    {
        let parent = self.parent[value];
        if parent == value {
            value
        } else {
            let root = self.find(parent);
            let ghost mid = *self;
            proof {
                mid.lemma_root(value as int);
                mid.lemma_root(parent as int);
                old(self).lemma_root(value as int);
            }
            self.parent.set(value, root);
            proof {
                assert forall|j: int| 0 <= j < self.size() implies #[trigger] self.root(j) == old(self).root(j) by {
                    mid.lemma_compress(self, value as int, j);
                    assert(mid.root(j) == old(self).root(j));
                }
            }
            proof {
                assert(self.partition() =~= old(self).partition());
            }
            root
        }
    }

    /// Merges the sets containing `left` and `right`; returns false if already merged.
    fn union(&mut self, left: usize, right: usize) -> (merged: bool)
        requires
            old(self).wf(),
            left < old(self).size(),
            right < old(self).size(),
        ensures
            final(self).wf(),
            final(self).size() == old(self).size(),
            merged == (old(self).root(left as int) != old(self).root(right as int)),
            ({
                let l = old(self).root(left as int);
                let r = old(self).root(right as int);
                ||| forall|j: int|
                    0 <= j < old(self).size() ==> #[trigger] final(self).root(j) == if old(self).root(j) == l {
                        r
                    } else {
                        old(self).root(j)
                    }
                ||| forall|j: int|
                    0 <= j < old(self).size() ==> #[trigger] final(self).root(j) == if old(self).root(j) == r {
                        l
                    } else {
                        old(self).root(j)
                    }
            }),
            final(self).partition() == united(old(self).partition(), left as int, right as int),
            merged ==> final(self).roots() < old(self).roots(),
            !merged ==> final(self).roots() == old(self).roots(),
    {
        let left_root = self.find(left);
        let right_root = self.find(right);
        proof {
            old(self).lemma_roots_same(self, self.size());
        }
        if left_root == right_root {
            return false;
        }
        let ghost mid = *self;
        proof {
            mid.lemma_root(left as int);
            mid.lemma_root(right as int);
        }
        if self.rank[left_root] < self.rank[right_root] {
            self.link(left_root, right_root, false);
            proof {
                assert(self.partition().root =~= relabelled(
                    mid.partition().root,
                    left_root as int,
                    right_root as int,
                ));
                assert(self.partition().rank =~= mid.partition().rank);
                mid.lemma_roots_link(self, left_root as int, right_root as int, mid.size());
            }
        } else if self.rank[right_root] < self.rank[left_root] {
            self.link(right_root, left_root, false);
            proof {
                assert(self.partition().root =~= relabelled(
                    mid.partition().root,
                    right_root as int,
                    left_root as int,
                ));
                assert(self.partition().rank =~= mid.partition().rank);
                mid.lemma_roots_link(self, right_root as int, left_root as int, mid.size());
            }
        } else {
            self.link(right_root, left_root, true);
            proof {
                assert(self.partition().root =~= relabelled(
                    mid.partition().root,
                    right_root as int,
                    left_root as int,
                ));
                assert(self.partition().rank =~= mid.partition().rank.update(
                    left_root as int,
                    mid.partition().rank[left_root as int] + 1,
                ));
                mid.lemma_roots_link(self, right_root as int, left_root as int, mid.size());
            }
        }
        true
    }

    /// Makes representative `to` the parent of representative `from`, raising the rank of `to` by
    /// one when `bump` is set.
    fn link(&mut self, from: usize, to: usize, bump: bool)
        requires
            old(self).wf(),
            from < old(self).size(),
            to < old(self).size(),
            from != to,
            old(self).parent[from as int] == from,
            old(self).parent[to as int] == to,
            bump ==> old(self).rank[from as int] == old(self).rank[to as int],
            !bump ==> old(self).rank[from as int] < old(self).rank[to as int],
        ensures
            final(self).wf(),
            final(self).parent@ == old(self).parent@.update(from as int, to),
            forall|j: int|
                0 <= j < old(self).size() ==> #[trigger] final(self).rank[j] == if bump && j == to {
                    old(self).rank[j] + 1
                } else {
                    old(self).rank[j] as int
                },
            forall|j: int|
                0 <= j < old(self).size() ==> #[trigger] final(self).root(j) == if old(self).root(j)
                    == from {
                    to as int
                } else {
                    old(self).root(j)
                },
    {
        let ghost w = self.weight@;
        proof {
            lemma_sum_pair(w, self.size(), from as int, to as int);
            if bump {
                if self.rank[to as int] >= 64 {
                    lemma_pow2_monotone(64, self.rank[to as int] as nat);
                    lemma_pow2_64();
                }
            }
        }
        self.parent.set(from, to);
        if bump {
            let rank: u8 = self.rank[to];
            self.rank.set(to, rank + 1);
        }
        proof {
            let w1 = w.update(to as int, w[to as int] + w[from as int]);
            lemma_sum_update(w, self.size(), to as int, w[to as int] + w[from as int]);
            lemma_sum_update(w1, self.size(), from as int, 0);
            self.weight@ = w1.update(from as int, 0);
            assert(pow2((old(self).rank[to as int] + 1) as nat) == 2 * pow2(
                old(self).rank[to as int] as nat,
            ));
            assert forall|j: int| 0 <= j < self.size() implies #[trigger] self.root(j) == if old(self).root(j) == from {
                to as int
            } else {
                old(self).root(j)
            } by {
                old(self).lemma_link(self, from as int, to as int, j);
            }
        }
    }
}

/// One bucket of the signature table: a symbol, its canonical arguments, and the term that came first.
struct Signature {
    /// Applied symbol.
    fun: FunId,
    /// Representatives of the arguments.
    args: Vec<usize>,
    /// First term with this signature.
    term: usize,
}

/// Symbol and canonical arguments of an entry as mathematical values.
spec fn sig_key(e: Signature) -> (int, Seq<int>) {
    (e.fun.id(), e.args@.map_values(|x: usize| x as int))
}

/// The list holds the entries of the table.
spec fn tabled(sigs: Seq<Signature>, table: Map<(int, Seq<int>), int>) -> bool {
    &&& forall|e: int|
        0 <= e < sigs.len() ==> table.contains_key(sig_key(#[trigger] sigs[e])) && table[sig_key(
            sigs[e],
        )] == sigs[e].term
    &&& forall|key: (int, Seq<int>)| #[trigger]
        table.contains_key(key) ==> exists|e: int|
            0 <= e < sigs.len() && sig_key(#[trigger] sigs[e]) == key
}

/// An entry with a new key goes to the end of the list.
proof fn lemma_tabled_push(
    sigs: Seq<Signature>,
    sig: Signature,
    table: Map<(int, Seq<int>), int>,
)
    requires
        tabled(sigs, table),
        forall|e: int|
            0 <= e < sigs.len() ==> !((#[trigger] sigs[e]).fun == sig.fun && sigs[e].args@
                == sig.args@),
    ensures
        !table.contains_key(sig_key(sig)),
        tabled(sigs.push(sig), table.insert(sig_key(sig), sig.term as int)),
{
    let key = sig_key(sig);
    let more = sigs.push(sig);
    let next = table.insert(key, sig.term as int);
    assert forall|e: int| 0 <= e < sigs.len() implies sig_key(#[trigger] sigs[e]) != key by {
        if sig_key(sigs[e]) == key {
            lemma_fun_id(sigs[e].fun);
            lemma_fun_id(sig.fun);
            assert(sigs[e].args@ =~= sig.args@) by {
                let a = sig_key(sigs[e]).1;
                let b = key.1;
                assert(a.len() == b.len());
                assert forall|x: int| 0 <= x < a.len() implies sigs[e].args@[x] == sig.args@[x] by {
                    assert(a[x] == b[x]);
                }
            }
        }
    }
    assert forall|e: int| 0 <= e < more.len() implies next.contains_key(
        sig_key(#[trigger] more[e]),
    ) && next[sig_key(more[e])] == more[e].term by {
        if e < sigs.len() {
            assert(more[e] == sigs[e]);
        }
    }
    assert forall|k: (int, Seq<int>)| #[trigger] next.contains_key(k) implies exists|e: int|
        0 <= e < more.len() && sig_key(#[trigger] more[e]) == k by {
        if k == key {
            assert(sig_key(more[sigs.len() as int]) == k);
        } else {
            let e = choose|e: int| 0 <= e < sigs.len() && sig_key(#[trigger] sigs[e]) == k;
            assert(more[e] == sigs[e]);
        }
    }
}

/// The indices as integers.
spec fn indices(list: Seq<usize>) -> Seq<int> {
    list.map_values(|x: usize| x as int)
}

/// The terms that have been seen.
spec fn marks(seen: Seq<bool>) -> spec_fn(int) -> bool {
    |t: int| 0 <= t < seen.len() && seen[t]
}

/// Without marks no arguments are counted.
proof fn lemma_no_marks(terms: Seq<TermView>, marks: spec_fn(int) -> bool, n: nat)
    requires
        forall|t: int| 0 <= t < n ==> !(#[trigger] marks(t)),
    ensures
        marked_args(terms, marks, n) == 0,
    decreases n,
{
    if n > 0 {
        lemma_no_marks(terms, marks, (n - 1) as nat);
        assert(!marks(n - 1));
    }
}

/// The classes are sound, and on the listed terms the canonical interpretation has their
/// representatives as values and makes the equalities true.
spec fn closing(
    terms: Seq<TermView>,
    atoms: Seq<AtomView>,
    cc: Congruence,
    list: Seq<usize>,
) -> bool {
    let set = listed(list);
    let canon = label_interp(terms, set, labels(cc));
    &&& cc.wf()
    &&& cc.size() == terms.len()
    &&& sound(terms, atoms, cc)
    &&& equalities_hold(terms, canon, atoms)
    &&& forall|k: int|
        0 <= k < atoms.len() ==> set((#[trigger] atoms[k]).lhs) && set(atoms[k].rhs)
    &&& forall|t: int|
        0 <= t < terms.len() && set(t) ==> #[trigger] value(terms, canon, t) == cc.root(t)
}

/// A closure costs no less than what comes before it.
proof fn lemma_costs(terms: Seq<TermView>, atoms: Seq<AtomView>)
    ensures
        forall|n: nat| #[trigger]
            closing_cost(terms, atoms, n) >= reach_cost(terms, atoms) + atoms.len(),
{
    let c = pass_cost(terms, relevant(terms, atoms));
    assert forall|n: nat| #[trigger] closing_cost(terms, atoms, n) >= reach_cost(terms, atoms)
        + atoms.len() by {
        assert(n * c >= 0) by (nonlinear_arith);
    }
}

/// Where all passes so far have united classes, at least one more follows.
proof fn lemma_next_pass(terms: Seq<TermView>, list: Seq<int>, s: Labels, passes: nat)
    requires
        forall|j: nat| j < passes ==> #[trigger] pass_changes(terms, list, s, j),
    ensures
        forall|n: nat| #[trigger]
            settles_from(terms, list, s, n) ==> n * pass_cost(terms, list) >= passes * pass_cost(
                terms,
                list,
            ) + pass_cost(terms, list),
{
    let c = pass_cost(terms, list);
    assert forall|n: nat| #[trigger] settles_from(terms, list, s, n) implies n * c >= passes * c
        + c by {
        if n <= passes {
            assert(pass_changes(terms, list, s, (n - 1) as nat));
        }
        assert(n * c >= passes * c + c) by (nonlinear_arith)
            requires
                n >= passes + 1,
        ;
    }
}

/// Returns whether two index lists are equal.
fn same_indices(a: &Vec<usize>, b: &Vec<usize>) -> (same: bool)
    ensures
        same == (a@ == b@),
{
    if a.len() != b.len() {
        return false;
    }
    let mut i: usize = 0;
    while i < a.len()
        invariant
            i <= a.len(),
            a.len() == b.len(),
            forall|j: int| 0 <= j < i ==> a[j] == b[j],
        decreases a.len() - i,
    {
        if a[i] != b[i] {
            return false;
        }
        i += 1;
    }
    assert(a@ =~= b@);
    true
}

/// Congruence-closure state for caller-interned terms.
#[derive(Debug, Clone)]
pub struct EufSolver {
    /// Next unallocated function-symbol identity.
    next_fun: u32,
    /// Interned [`Term`] values in ascending [`TermId`] order.
    terms: Vec<Term>,
}

/// The interned applications as mathematical terms.
pub open spec fn term_views(terms: Seq<Term>) -> Seq<TermView> {
    terms.map_values(|t: Term| t.app())
}

/// Equal representatives have equal values under every interpretation that makes the equalities true.
spec fn sound(terms: Seq<TermView>, atoms: Seq<AtomView>, cc: Congruence) -> bool {
    forall|m: Interp, i: int| #[trigger]
        equalities_hold(terms, m, atoms) && 0 <= i < terms.len() ==> value(terms, m, i) == value(
            terms,
            m,
            #[trigger] cc.root(i),
        )
}

/// Everything merged in `a` is merged in `b`.
spec fn coarser(a: Congruence, b: Congruence) -> bool {
    forall|i: int, j: int|
        0 <= i < a.size() && 0 <= j < a.size() && #[trigger] a.root(i) == #[trigger] a.root(j)
            ==> b.root(i) == b.root(j)
}

/// The endpoints of the first `n` equalities are merged.
spec fn merged(atoms: Seq<AtomView>, cc: Congruence, n: int) -> bool {
    forall|i: int|
        0 <= i < n && (#[trigger] atoms[i]).equal ==> cc.root(atoms[i].lhs) == cc.root(atoms[i].rhs)
}

spec fn listed(list: Seq<usize>) -> spec_fn(int) -> bool {
    |t: int| exists|i: int| 0 <= i < list.len() && #[trigger] list[i] == t
}

spec fn labels(cc: Congruence) -> spec_fn(int) -> int {
    |t: int| cc.root(t)
}

/// `e` is the table entry for term `t` under the representatives in `cc`.
spec fn entry_for(terms: Seq<TermView>, cc: Congruence, e: Signature, t: int) -> bool {
    &&& e.fun.id() == terms[t].fun
    &&& e.args.len() == terms[t].args.len()
    &&& forall|k: int| 0 <= k < terms[t].args.len() ==> e.args[k] == cc.root(#[trigger] terms[t].args[k])
}

impl EufSolver {
    /// The interned terms in insertion order.
    pub closed spec fn table(&self) -> Seq<Term> {
        self.terms@
    }

    /// The interned terms as mathematical terms.
    pub open spec fn views(&self) -> Seq<TermView> {
        term_views(self.table())
    }

    /// The number of allocated function symbols.
    pub closed spec fn fun_count(&self) -> nat {
        self.next_fun as nat
    }

    /// Terms only use allocated symbols and terms interned before them.
    pub closed spec fn wf(&self) -> bool {
        &&& self.terms.len() <= u32::MAX + 1
        &&& well_founded(self.views())
        &&& forall|t: int|
            0 <= t < self.terms.len() ==> 0 <= (#[trigger] self.views()[t]).fun < self.fun_count()
    }

    /// What well-formedness says of the term table.
    pub proof fn lemma_wf(&self)
        requires
            self.wf(),
        ensures
            self.table().len() <= u32::MAX + 1,
            well_founded(self.views()),
            forall|t: int|
                0 <= t < self.table().len() ==> 0 <= (#[trigger] self.views()[t]).fun
                    < self.fun_count(),
    {
    }

    /// Creates an empty solver with no allocated symbols or interned terms.
    pub fn new() -> (solver: Self)
        ensures
            solver.wf(),
            solver.table() == Seq::<Term>::empty(),
            solver.fun_count() == 0,
    {
        Self { next_fun: 0, terms: Vec::new() }
    }

    /// Allocates one fresh uninterpreted function symbol identity.
    ///
    /// The caller is responsible for mapping any higher-level symbol namespace
    /// onto this opaque handle.
    pub fn alloc_fun(&mut self) -> (fun: FunId)
        requires
            old(self).wf(),
            old(self).fun_count() < u32::MAX,
        ensures
            final(self).wf(),
            final(self).table() == old(self).table(),
            fun.id() == old(self).fun_count(),
            final(self).fun_count() == old(self).fun_count() + 1,
    {
        let id = FunId(self.next_fun);
        self.next_fun = self.next_fun + 1;
        proof {
            assert(self.views() =~= old(self).views());
        }
        id
    }

    /// Interns a term given its already-resolved function symbol and arguments.
    pub fn intern_term(&mut self, fun: FunId, args: Vec<TermId>) -> (id: TermId)
        requires
            old(self).wf(),
            fun.id() < old(self).fun_count(),
            old(self).table().len() <= u32::MAX,
            forall|k: int| 0 <= k < args.len() ==> (#[trigger] args[k]).id() < old(self).table().len(),
        ensures
            final(self).wf(),
            final(self).fun_count() == old(self).fun_count(),
            id.id() == old(self).table().len(),
            final(self).table().len() == old(self).table().len() + 1,
            final(self).table().drop_last() == old(self).table(),
            final(self).table().last().spec_fun() == fun,
            final(self).table().last().spec_args() == args@,
    {
        let term = Term { fun, args };
        let id = TermId(self.terms.len() as u32);
        self.terms.push(term);
        proof {
            assert(self.table().drop_last() =~= old(self).table());
            let n = old(self).table().len() as int;
            let v = self.views();
            assert forall|t: int, k: int|
                0 <= t < v.len() && 0 <= k < v[t].args.len() implies 0 <= (#[trigger] v[t].args[k])
                < t by {
                if t < n {
                    assert(v[t] == old(self).views()[t]);
                } else {
                    assert(v[t].args[k] == args[k].id());
                }
            }
            assert forall|t: int| 0 <= t < v.len() implies 0 <= (#[trigger] v[t]).fun
                < self.fun_count() by {
                if t < n {
                    assert(v[t] == old(self).views()[t]);
                }
            }
        }
        id
    }

    /// Returns the number of allocated function symbols.
    pub fn num_funs(&self) -> (n: u32)
        ensures
            n == self.fun_count(),
    {
        self.next_fun
    }

    /// Returns the term arena in insertion order.
    pub fn terms(&self) -> (terms: &[Term])
        ensures
            terms@ == self.table(),
    {
        self.terms.as_slice()
    }

    /// Checks whether the given atoms are jointly consistent.
    pub fn check(&self, atoms: &[TheoryAtom]) -> (outcome: Result<(), TheoryConflict>)
        requires
            self.wf(),
            atoms_in_range(self.views(), atoms_view(atoms@)),
        ensures
            outcome is Ok <==> satisfiable(self.views(), atoms_view(atoms@)),
            outcome is Ok <==> forall|i: int| !violated(self.views(), atoms_view(atoms@), i),
            outcome matches Err(conflict) ==> first_violation(self.views(), atoms@, conflict),
    {
        let mut budget = UnlimitedBudget;
        match self.check_with_budget(atoms, &mut budget) {
            EufCheckOutcome::Consistent => Ok(()),
            EufCheckOutcome::Conflict(conflict) => Err(conflict),
            EufCheckOutcome::Interrupted => Ok(()),
        }
    }

    /// Merges the equalities among the atoms and closes the classes under congruence on the relevant
    /// terms, which are returned too.
    fn close_equalities<B: CheckBudget>(
        &self,
        atoms: &[TheoryAtom],
        budget: &mut B,
        batch: &mut Batch,
    ) -> (closed: Option<(Congruence, Vec<usize>)>)
        requires
            self.wf(),
            old(batch).wf(),
            atoms_in_range(self.views(), atoms_view(atoms@)),
        ensures
            final(batch).wf(),
            final(batch).quantum == old(batch).quantum,
            closed matches Some((cc, list)) ==> closing(
                self.views(),
                atoms_view(atoms@),
                cc,
                list@,
            ),
            old(budget).unlimited() ==> closed is Some && final(budget).unlimited(),
            closed is Some ==> exists|n: nat| #[trigger]
                settles(self.views(), atoms_view(atoms@), n) && drawn(
                    stock(old(budget), *old(batch)),
                    stock(final(budget), *final(batch)),
                    closing_cost(self.views(), atoms_view(atoms@), n),
                ),
            closed is None ==> forall|n: nat| #[trigger]
                settles(self.views(), atoms_view(atoms@), n) ==> cut_short(
                    stock(old(budget), *old(batch)),
                    stock(final(budget), *final(batch)),
                    closing_cost(self.views(), atoms_view(atoms@), n),
                ),
    {
        let ghost terms = self.views();
        let ghost av = atoms_view(atoms@);
        let ghost reach = reach_cost(terms, av);
        let ghost whole = pass_cost(terms, relevant(terms, av));
        let relevant_terms = self.relevant_terms(atoms, budget, batch);
        let relevant_terms = match relevant_terms {
            Some(relevant_terms) => relevant_terms,
            None => {
                return None;
            },
        };
        let mut cc = Congruence::new(self.terms.len());
        proof {
            assert(sound(terms, av, cc));
            lemma_costs(terms, av);
        }
        let mut i: usize = 0;
        while i < atoms.len()
            invariant
                0 <= i <= atoms.len(),
                self.wf(),
                terms == self.views(),
                av == atoms_view(atoms@),
                atoms_in_range(terms, av),
                cc.wf(),
                cc.size() == terms.len(),
                sound(terms, av, cc),
                merged(av, cc, i as int),
                old(budget).unlimited() ==> budget.unlimited(),
                batch.wf(),
                batch.quantum == old(batch).quantum,
                cc.partition() == merged_labels(terms.len(), av, i as nat),
                forall|n: nat| #[trigger] closing_cost(terms, av, n) >= reach + av.len(),
                drawn(stock(old(budget), *old(batch)), stock(budget, *batch), (reach + i) as nat),
            decreases atoms.len() - i,
        {
            if !batch.checkpoint(budget) {
                return None;
            }
            proof {
                assert(drawn(stock(old(budget), *old(batch)), stock(budget, *batch), (reach + i + 1) as nat));
            }
            let ghost before = cc;
            proof {
                assert(av[i as int] == atoms[i as int].atom());
            }
            if let TheoryAtom::Eq(left, right) = atoms[i] {
                cc.union(left.index(), right.index());
                proof {
                    lemma_union_keeps(terms, av, before, cc, left.id(), right.id(), i as int);
                }
            }
            i += 1;
        }
        let ghost paused = stock(budget, *batch);
        let ghost joined = reach + av.len();
        let closed = self.close_congruence(&mut cc, &relevant_terms, budget, batch, Ghost(av));
        proof {
            assert forall|n: nat| true implies #[trigger] settles(terms, av, n) == settles_from(
                terms,
                relevant(terms, av),
                merged_labels(terms.len(), av, av.len()),
                n,
            ) by {}
        }
        if !closed {
            proof {
                assert forall|n: nat| #[trigger] settles(terms, av, n) implies cut_short(
                    stock(old(budget), *old(batch)),
                    stock(budget, *batch),
                    closing_cost(terms, av, n),
                ) by {
                    lemma_drawn_trans(
                        stock(old(budget), *old(batch)),
                        paused,
                        stock(budget, *batch),
                        joined,
                        n * whole,
                    );
                }
            }
            return None;
        }
        proof {
            let n = choose|n: nat| #[trigger]
                settles_from(
                    terms,
                    relevant(terms, av),
                    merged_labels(terms.len(), av, av.len()),
                    n,
                ) && drawn(paused, stock(budget, *batch), n * whole);
            lemma_drawn_trans(
                stock(old(budget), *old(batch)),
                paused,
                stock(budget, *batch),
                joined,
                n * whole,
            );
            assert(settles(terms, av, n));
        }
        let ghost set = listed(relevant_terms@);
        let ghost canon = label_interp(terms, set, labels(cc));
        proof {
            assert(closed_under_args(terms, set)) by {
                assert forall|t: int, k: int|
                    0 <= t < terms.len() && set(t) && 0 <= k < terms[t].args.len() implies set(
                    #[trigger] terms[t].args[k],
                ) by {
                    lemma_mentioned_step(terms, av, t, k);
                }
            }
            assert forall|t: int| 0 <= t < terms.len() && set(t) implies #[trigger] value(
                terms,
                canon,
                t,
            ) == cc.root(t) by {
                lemma_label_interp(terms, set, labels(cc), t);
            }
            assert forall|k: int| 0 <= k < av.len() implies set((#[trigger] av[k]).lhs) && set(
                av[k].rhs,
            ) by {
                assert(subterm(terms, av[k].lhs, av[k].lhs));
                assert(mentioned(terms, av, av[k].lhs));
                assert(subterm(terms, av[k].rhs, av[k].rhs));
                assert(mentioned(terms, av, av[k].rhs));
            }
            assert(equalities_hold(terms, canon, av));
        }
        Some((cc, relevant_terms))
    }

    /// Checks whether the given atoms are jointly consistent under `budget`.
    pub fn check_with_budget<B: CheckBudget>(
        &self,
        atoms: &[TheoryAtom],
        budget: &mut B,
    ) -> (outcome: EufCheckOutcome)
        requires
            self.wf(),
            atoms_in_range(self.views(), atoms_view(atoms@)),
        ensures
            outcome is Consistent ==> satisfiable(self.views(), atoms_view(atoms@)) && forall|i: int|
                !violated(self.views(), atoms_view(atoms@), i),
            outcome matches EufCheckOutcome::Conflict(conflict) ==> !satisfiable(
                self.views(),
                atoms_view(atoms@),
            ) && first_violation(self.views(), atoms@, conflict),
            old(budget).unlimited() ==> outcome !is Interrupted && final(budget).unlimited(),
            check_draws(
                self.views(),
                atoms_view(atoms@),
                supply_of(old(budget)),
                supply_of(final(budget)),
                outcome !is Interrupted,
            ),
    {
        let mut batch = Batch::new(1);
        let ghost start = batch;
        let outcome = self.check_batched(atoms, budget, &mut batch);
        proof {
            lemma_single(old(budget), start);
            lemma_single(budget, batch);
        }
        outcome
    }

    /// Checks whether the given atoms are jointly consistent under `budget`, which is asked once for
    /// every batch of checkpoints.
    pub fn check_batched<B: CheckBudget>(
        &self,
        atoms: &[TheoryAtom],
        budget: &mut B,
        batch: &mut Batch,
    ) -> (outcome: EufCheckOutcome)
        requires
            self.wf(),
            old(batch).wf(),
            atoms_in_range(self.views(), atoms_view(atoms@)),
        ensures
            final(batch).wf(),
            final(batch).quantum == old(batch).quantum,
            outcome is Consistent ==> satisfiable(self.views(), atoms_view(atoms@)) && forall|i: int|
                !violated(self.views(), atoms_view(atoms@), i),
            outcome matches EufCheckOutcome::Conflict(conflict) ==> !satisfiable(
                self.views(),
                atoms_view(atoms@),
            ) && first_violation(self.views(), atoms@, conflict),
            old(budget).unlimited() ==> outcome !is Interrupted && final(budget).unlimited(),
            check_draws(
                self.views(),
                atoms_view(atoms@),
                stock(old(budget), *old(batch)),
                stock(final(budget), *final(batch)),
                outcome !is Interrupted,
            ),
    {
        let ghost terms = self.views();
        let ghost av = atoms_view(atoms@);
        let (mut cc, relevant_terms) = match self.close_equalities(atoms, budget, batch) {
            Some(closed) => closed,
            None => {
                return EufCheckOutcome::Interrupted;
            },
        };
        let ghost passes = choose|n: nat| #[trigger]
            settles(terms, av, n) && drawn(
                stock(old(budget), *old(batch)),
                stock(budget, *batch),
                closing_cost(terms, av, n),
            );
        let ghost total = check_cost(terms, av, passes);
        let ghost spent = closing_cost(terms, av, passes);
        proof {
            assert forall|n: nat| #[trigger] settles(terms, av, n) implies n == passes by {
                lemma_settles_once(terms, av, n, passes);
            }
        }
        let ghost set = listed(relevant_terms@);
        let ghost canon = label_interp(terms, set, labels(cc));
        let mut i: usize = 0;
        while i < atoms.len()
            invariant
                0 <= i <= atoms.len(),
                self.wf(),
                terms == self.views(),
                av == atoms_view(atoms@),
                atoms_in_range(terms, av),
                cc.wf(),
                cc.size() == terms.len(),
                sound(terms, av, cc),
                equalities_hold(terms, canon, av),
                forall|k: int| 0 <= k < av.len() ==> set((#[trigger] av[k]).lhs) && set(av[k].rhs),
                forall|t: int|
                    0 <= t < terms.len() && set(t) ==> #[trigger] value(terms, canon, t) == cc.root(
                        t,
                    ),
                forall|j: int| 0 <= j < i ==> #[trigger] crate::semantics::atom_holds(terms, canon, av[j]),
                old(budget).unlimited() ==> budget.unlimited(),
                batch.wf(),
                batch.quantum == old(batch).quantum,
                settles(terms, av, passes),
                forall|n: nat| #[trigger] settles(terms, av, n) ==> n == passes,
                total == check_cost(terms, av, passes),
                forall|j: int| 0 <= j < i ==> !#[trigger] violated(terms, av, j),
                total == spent + i + scan_cost(terms, av, i as nat),
                drawn(stock(old(budget), *old(batch)), stock(budget, *batch), (spent + i) as nat),
            decreases atoms.len() - i,
        {
            if !batch.checkpoint(budget) {
                return EufCheckOutcome::Interrupted;
            }
            proof {
                assert(drawn(stock(old(budget), *old(batch)), stock(budget, *batch), (spent + i + 1) as nat));
                assert(av[i as int] == atoms[i as int].atom());
            }
            if let TheoryAtom::Diseq(left, right) = atoms[i] {
                let ghost before = cc;
                let left_root = cc.find(left.index());
                let right_root = cc.find(right.index());
                proof {
                    assert forall|t: int| 0 <= t < terms.len() implies #[trigger] cc.root(t)
                        == before.root(t) by {}
                }
                if left_root == right_root {
                    let conflict = TheoryConflict {
                        left,
                        right,
                        explanation: Explanation {
                            reason: "equality closure implies both sides are equal".to_owned(),
                        },
                    };
                    proof {
                        assert forall|m: Interp| #[trigger]
                            equalities_hold(terms, m, av) implies value(terms, m, left.id())
                            == value(terms, m, right.id()) by {
                            assert(value(terms, m, left.id()) == value(
                                terms,
                                m,
                                before.root(left.id()),
                            ));
                            assert(value(terms, m, right.id()) == value(
                                terms,
                                m,
                                before.root(right.id()),
                            ));
                        }
                        assert(violated(terms, av, i as int));
                        assert forall|j: int| 0 <= j < i implies !violated(terms, av, j) by {
                            assert(crate::semantics::atom_holds(terms, canon, av[j]));
                        }
                        lemma_violated_unsatisfiable(terms, av, i as int);
                    }
                    return EufCheckOutcome::Conflict(conflict);
                }
            }
            proof {
                assert(crate::semantics::atom_holds(terms, canon, av[i as int]));
                assert(!violated(terms, av, i as int));
            }
            i += 1;
        }
        proof {
            assert(atoms_hold(terms, canon, av));
            assert forall|j: int| !violated(terms, av, j) by {
                if violated(terms, av, j) {
                    lemma_violated_unsatisfiable(terms, av, j);
                }
            }
        }
        EufCheckOutcome::Consistent
    }

    /// Collects the terms that can matter to the current atom set.
    ///
    /// Only atom endpoints and their recursive subterms can participate in a proof about
    /// those atoms. Unmentioned terms are ignored so guard-heavy incremental benchmarks do
    /// not pay congruence-closure cost for dormant formula regions.
    fn relevant_terms<B: CheckBudget>(
        &self,
        atoms: &[TheoryAtom],
        budget: &mut B,
        batch: &mut Batch,
    ) -> (list: Option<Vec<usize>>)
        requires
            self.wf(),
            old(batch).wf(),
        ensures
            final(batch).wf(),
            final(batch).quantum == old(batch).quantum,
            list matches Some(list) ==> {
                &&& forall|t: int|
                    0 <= t < self.views().len() ==> (#[trigger] listed(list@)(t) <==> mentioned(
                        self.views(),
                        atoms_view(atoms@),
                        t,
                    ))
                &&& forall|i: int| 0 <= i < list.len() ==> (#[trigger] list[i]) < self.views().len()
                &&& forall|i: int, j: int| 0 <= i < j < list.len() ==> list[i] < list[j]
                &&& indices(list@) == relevant(self.views(), atoms_view(atoms@))
            },
            list is Some ==> drawn(
                stock(old(budget), *old(batch)),
                stock(final(budget), *final(batch)),
                reach_cost(self.views(), atoms_view(atoms@)),
            ),
            list is None ==> cut_short(
                stock(old(budget), *old(batch)),
                stock(final(budget), *final(batch)),
                reach_cost(self.views(), atoms_view(atoms@)),
            ),
            old(budget).unlimited() ==> list is Some && final(budget).unlimited(),
    {
        let ghost terms = self.views();
        let ghost av = atoms_view(atoms@);
        let mut seen: Vec<bool> = Vec::new();
        seen.resize(self.terms.len(), false);
        let mut stack: Vec<usize> = Vec::new();
        let mut i: usize = 0;
        while i < atoms.len()
            invariant
                0 <= i <= atoms.len(),
                self.wf(),
                terms == self.views(),
                av == atoms_view(atoms@),
                seen.len() == terms.len(),
                forall|t: int| 0 <= t < seen.len() ==> !seen[t],
                stack.len() == 2 * i,
                forall|j: int| 0 <= j < stack.len() ==> mentioned(terms, av, #[trigger] stack[j] as int),
                forall|j: int|
                    0 <= j < i ==> listed(stack@)((#[trigger] av[j]).lhs) && listed(stack@)(
                        av[j].rhs,
                    ),
                old(budget).unlimited() ==> budget.unlimited(),
                batch.wf(),
                batch.quantum == old(batch).quantum,
                drawn(stock(old(budget), *old(batch)), stock(budget, *batch), i as nat),
            decreases atoms.len() - i,
        {
            if !batch.checkpoint(budget) {
                return None;
            }
            proof {
                assert(drawn(stock(old(budget), *old(batch)), stock(budget, *batch), (i + 1) as nat));
            }
            let ghost before = stack@;
            let (left, right) = match &atoms[i] {
                TheoryAtom::Eq(left, right) => (*left, *right),
                TheoryAtom::Diseq(left, right) => (*left, *right),
            };
            proof {
                assert(av[i as int] == atoms[i as int].atom());
                assert(subterm(terms, av[i as int].lhs, left.id()));
                assert(mentioned(terms, av, left.id()));
                assert(subterm(terms, av[i as int].rhs, right.id()));
                assert(mentioned(terms, av, right.id()));
            }
            stack.push(left.index());
            stack.push(right.index());
            proof {
                lemma_listed_push(before, left.id() as usize);
                lemma_listed_push(before.push(left.id() as usize), right.id() as usize);
            }
            i += 1;
        }
        let ghost mut unseen: nat = lemma_unseen_all(seen@);
        let ghost n = atoms.len() as nat;
        let ghost mut popped: nat = 0;
        proof {
            lemma_no_marks(terms, marks(seen@), terms.len());
        }
        while stack.len() > 0
            invariant
                self.wf(),
                terms == self.views(),
                av == atoms_view(atoms@),
                seen.len() == terms.len(),
                unseen == count_unseen(seen@, seen.len() as int),
                n == atoms.len(),
                popped + stack.len() == 2 * n + marked_args(terms, marks(seen@), terms.len()),
                forall|j: int| 0 <= j < stack.len() ==> mentioned(terms, av, #[trigger] stack[j] as int),
                forall|t: int| 0 <= t < seen.len() && #[trigger] seen[t] ==> mentioned(terms, av, t),
                forall|j: int|
                    0 <= j < av.len() ==> ((#[trigger] av[j]).lhs < terms.len() ==> reached(
                        seen@,
                        stack@,
                        av[j].lhs,
                    )) && (av[j].rhs < terms.len() ==> reached(seen@, stack@, av[j].rhs)),
                forall|t: int, k: int|
                    0 <= t < seen.len() && seen[t] && 0 <= k < terms[t].args.len() ==> reached(
                        seen@,
                        stack@,
                        #[trigger] terms[t].args[k],
                    ),
                old(budget).unlimited() ==> budget.unlimited(),
                batch.wf(),
                batch.quantum == old(batch).quantum,
                drawn(stock(old(budget), *old(batch)), stock(budget, *batch), n + popped),
            decreases unseen, stack.len(),
        {
            let ghost stack0 = stack@;
            let ghost seen0 = seen@;
            let index = stack.pop().unwrap();
            proof {
                assert(stack0 =~= stack@.push(index));
                assert forall|t: int| reached(seen0, stack0, t) implies #[trigger] reached(
                    seen@,
                    stack@,
                    t,
                ) || t == index by {
                    lemma_listed_push(stack@, index);
                }
            }
            proof {
                lemma_marked_more(terms, marks(seen@), mentions(terms, av), terms.len());
            }
            if !batch.checkpoint(budget) {
                return None;
            }
            proof {
                popped = popped + 1;
                assert(drawn(stock(old(budget), *old(batch)), stock(budget, *batch), n + popped));
            }
            if index >= seen.len() {
                continue;
            }
            if seen[index] {
                proof {
                    assert(reached(seen@, stack@, index as int));
                }
                continue;
            }
            seen.set(index, true);
            proof {
                lemma_unseen_mark(seen0, index as int, seen0.len() as int);
                unseen = (unseen - 1) as nat;
                lemma_marked_one(terms, marks(seen0), marks(seen@), index as int, terms.len());
                assert(mentioned(terms, av, index as int)) by {
                    assert(stack0[stack0.len() - 1] == index);
                }
            }
            let term = &self.terms[index];
            let ghost tv = terms[index as int];
            proof {
                assert(tv == term.app());
            }
            let mut k: usize = term.args.len();
            while k > 0
                invariant
                    0 <= k <= term.args.len(),
                    term == self.terms[index as int],
                    tv == term.app(),
                    index < terms.len(),
                    terms == self.views(),
                    self.wf(),
                    tv == terms[index as int],
                    seen.len() == terms.len(),
                    mentioned(terms, av, index as int),
                    stack.len() + k == stack0.len() - 1 + tv.args.len(),
                    forall|j: int|
                        0 <= j < stack.len() ==> mentioned(terms, av, #[trigger] stack[j] as int),
                    forall|t: int|
                        reached(seen0, stack0, t) ==> #[trigger] reached(seen@, stack@, t),
                    forall|j: int|
                        k <= j < tv.args.len() ==> reached(seen@, stack@, #[trigger] tv.args[j]),
                decreases k,
            {
                k -= 1;
                let ghost before = stack@;
                let arg = term.args[k].index();
                proof {
                    assert(tv.args[k as int] == arg);
                    lemma_mentioned_step(terms, av, index as int, k as int);
                    lemma_listed_push(before, arg);
                }
                stack.push(arg);
                proof {
                    assert forall|t: int| reached(seen@, before, t) implies #[trigger] reached(
                        seen@,
                        stack@,
                        t,
                    ) by {}
                    assert(reached(seen@, stack@, arg as int));
                }
            }
            proof {
                assert forall|t: int, j: int|
                    0 <= t < seen.len() && seen[t] && 0 <= j < terms[t].args.len() implies reached(
                    seen@,
                    stack@,
                    #[trigger] terms[t].args[j],
                ) by {
                    if t != index {
                        assert(seen0[t]);
                        assert(reached(seen0, stack0, terms[t].args[j]));
                    } else {
                        assert(reached(seen@, stack@, tv.args[j]));
                    }
                }
            }
        }
        proof {
            let set = |t: int| 0 <= t < seen.len() && seen[t];
            assert forall|t: int, k: int|
                0 <= t < terms.len() && set(t) && 0 <= k < terms[t].args.len() implies set(
                #[trigger] terms[t].args[k],
            ) by {
                assert(reached(seen@, stack@, terms[t].args[k]));
            }
            assert(closed_under_args(terms, set));
            assert forall|t: int| 0 <= t < terms.len() implies (#[trigger] seen[t] <==> mentioned(
                terms,
                av,
                t,
            )) by {
                if mentioned(terms, av, t) {
                    let i = choose|i: int|
                        0 <= i < av.len() && (subterm(terms, (#[trigger] av[i]).lhs, t) || subterm(
                            terms,
                            av[i].rhs,
                            t,
                        ));
                    if subterm(terms, av[i].lhs, t) {
                        assert(reached(seen@, stack@, av[i].lhs));
                        lemma_subterm_closed(terms, set, av[i].lhs, t);
                    } else {
                        assert(reached(seen@, stack@, av[i].rhs));
                        lemma_subterm_closed(terms, set, av[i].rhs, t);
                    }
                }
            }
            lemma_marked_more(terms, marks(seen@), mentions(terms, av), terms.len());
            lemma_marked_more(terms, mentions(terms, av), marks(seen@), terms.len());
        }
        let mut list: Vec<usize> = Vec::new();
        let mut index: usize = 0;
        proof {
            assert(indices(list@) =~= Seq::<int>::empty());
        }
        while index < seen.len()
            invariant
                0 <= index <= seen.len(),
                seen.len() == terms.len(),
                forall|t: int|
                    0 <= t < terms.len() ==> (#[trigger] seen[t] <==> mentioned(terms, av, t)),
                indices(list@) == relevant_to(terms, av, index as nat),
                forall|i: int| 0 <= i < list.len() ==> (#[trigger] list[i]) < index,
                forall|i: int| 0 <= i < list.len() ==> seen[(#[trigger] list[i]) as int],
                forall|t: int| 0 <= t < index && #[trigger] seen[t] ==> listed(list@)(t),
                forall|i: int, j: int| 0 <= i < j < list.len() ==> list[i] < list[j],
            decreases seen.len() - index,
        {
            if seen[index] {
                let ghost before = list@;
                list.push(index);
                proof {
                    lemma_listed_push(before, index);
                    assert(indices(list@) =~= indices(before).push(index as int));
                }
            }
            index += 1;
        }
        proof {
            assert forall|t: int| 0 <= t < terms.len() implies (#[trigger] listed(list@)(t)
                <==> mentioned(terms, av, t)) by {
                assert(seen[t] <==> mentioned(terms, av, t));
                if listed(list@)(t) {
                    let i = choose|i: int| 0 <= i < list.len() && #[trigger] list[i] == t;
                    assert(seen[list[i] as int]);
                }
            }
        }
        Some(list)
    }

    /// Repeats signature bucketing until congruence-derived equalities stabilize in `cc`.
    fn close_congruence<B: CheckBudget>(
        &self,
        cc: &mut Congruence,
        relevant_terms: &Vec<usize>,
        budget: &mut B,
        batch: &mut Batch,
        Ghost(av): Ghost<Seq<AtomView>>,
    ) -> (done: bool)
        requires
            self.wf(),
            old(batch).wf(),
            old(cc).wf(),
            old(cc).size() == self.views().len(),
            forall|i: int| 0 <= i < relevant_terms.len() ==> (#[trigger] relevant_terms[i])
                < self.views().len(),
            sound(self.views(), av, *old(cc)),
            atoms_in_range(self.views(), av),
        ensures
            final(batch).wf(),
            final(batch).quantum == old(batch).quantum,
            final(cc).wf(),
            final(cc).size() == old(cc).size(),
            sound(self.views(), av, *final(cc)),
            coarser(*old(cc), *final(cc)),
            done ==> congruence_on(self.views(), listed(relevant_terms@), labels(*final(cc))),
            old(budget).unlimited() ==> done && final(budget).unlimited(),
            done ==> exists|n: nat| #[trigger]
                settles_from(
                    self.views(),
                    indices(relevant_terms@),
                    old(cc).partition(),
                    n,
                ) && drawn(
                    stock(old(budget), *old(batch)),
                    stock(final(budget), *final(batch)),
                    n * pass_cost(self.views(), indices(relevant_terms@)),
                ),
            !done ==> forall|n: nat| #[trigger]
                settles_from(
                    self.views(),
                    indices(relevant_terms@),
                    old(cc).partition(),
                    n,
                ) ==> cut_short(
                    stock(old(budget), *old(batch)),
                    stock(final(budget), *final(batch)),
                    n * pass_cost(self.views(), indices(relevant_terms@)),
                ),
    {
        let ghost terms = self.views();
        let ghost list = indices(relevant_terms@);
        let ghost labels0 = cc.partition();
        let ghost mut passes: nat = 0;
        let ghost mut paid: nat = 0;
        proof {
            assert(0 * pass_cost(terms, list) == 0) by (nonlinear_arith);
        }
        loop
            invariant
                self.wf(),
                terms == self.views(),
                cc.wf(),
                cc.size() == old(cc).size(),
                cc.size() == terms.len(),
                forall|i: int| 0 <= i < relevant_terms.len() ==> (#[trigger] relevant_terms[i])
                    < terms.len(),
                sound(terms, av, *cc),
                coarser(*old(cc), *cc),
                old(budget).unlimited() ==> budget.unlimited(),
                batch.wf(),
                batch.quantum == old(batch).quantum,
                list == indices(relevant_terms@),
                labels0 == old(cc).partition(),
                cc.partition() == labels_after(terms, list, labels0, passes),
                forall|j: nat| j < passes ==> #[trigger] pass_changes(terms, list, labels0, j),
                paid == passes * pass_cost(terms, list),
                drawn(stock(old(budget), *old(batch)), stock(budget, *batch), paid),
            decreases cc.roots(),
        {
            let ghost whole = pass_cost(terms, list);
            proof {
                lemma_next_pass(terms, list, labels0, passes);
            }
            if !batch.checkpoint(budget) {
                return false;
            }
            proof {
                assert(drawn(stock(old(budget), *old(batch)), stock(budget, *batch), paid + 1));
            }
            let ghost start = *cc;
            let mut changed = false;
            let mut signatures: Vec<Signature> = Vec::new();
            let mut i: usize = 0;
            while i < relevant_terms.len()
                invariant
                    0 <= i <= relevant_terms.len(),
                    self.wf(),
                    terms == self.views(),
                    cc.wf(),
                    cc.size() == old(cc).size(),
                    cc.size() == terms.len(),
                    start.wf(),
                    start.size() == terms.len(),
                    forall|j: int| 0 <= j < relevant_terms.len() ==> (#[trigger] relevant_terms[j])
                        < terms.len(),
                    sound(terms, av, *cc),
                    coarser(*old(cc), *cc),
                    coarser(start, *cc),
                    old(budget).unlimited() ==> budget.unlimited(),
                    batch.wf(),
                    batch.quantum == old(batch).quantum,
                    list == indices(relevant_terms@),
                    labels0 == old(cc).partition(),
                    whole == pass_cost(terms, list),
                    forall|n: nat| #[trigger]
                        settles_from(terms, list, labels0, n) ==> n * whole >= paid + whole,
                    start.partition() == labels_after(terms, list, labels0, passes),
                    ({
                        let pass = pass_to(terms, list, start.partition(), i as nat);
                        &&& pass.labels == cc.partition()
                        &&& pass.changed == changed
                        &&& tabled(signatures@, pass.table)
                    }),
                    drawn(stock(old(budget), *old(batch)), stock(budget, *batch), paid + 1 + walk_cost(terms, list, i as nat)),
                    changed ==> cc.roots() < start.roots(),
                    !changed ==> cc.roots() == start.roots(),
                    !changed ==> forall|t: int|
                        0 <= t < terms.len() ==> #[trigger] cc.root(t) == start.root(t),
                    signatures_sound(terms, *cc, signatures@),
                    !changed ==> signatures_distinct(signatures@),
                    !changed ==> forall|j: int|
                        0 <= j < i ==> has_entry(
                            terms,
                            start,
                            signatures@,
                            #[trigger] relevant_terms[j] as int,
                        ),
                decreases relevant_terms.len() - i,
            {
                let ghost at = paid + 1 + walk_cost(terms, list, i as nat);
                proof {
                    lemma_walk_cost(terms, list, (i + 1) as nat, list.len());
                }
                if !batch.checkpoint(budget) {
                    return false;
                }
                proof {
                    assert(drawn(stock(old(budget), *old(batch)), stock(budget, *batch), at + 1));
                }
                let term_index = relevant_terms[i];
                let term = &self.terms[term_index];
                let ghost tv = terms[term_index as int];
                proof {
                    assert(tv == term.app());
                }
                let ghost before = *cc;
                let mut canonical_args: Vec<usize> = Vec::new();
                let mut k: usize = 0;
                while k < term.args.len()
                    invariant
                        0 <= k <= term.args.len(),
                        self.wf(),
                        terms == self.views(),
                        term_index < terms.len(),
                        term == self.terms[term_index as int],
                        tv == term.app(),
                        tv == terms[term_index as int],
                        before.wf(),
                        before.size() == terms.len(),
                        cc.wf(),
                        cc.size() == terms.len(),
                        cc.roots() == before.roots(),
                        forall|t: int|
                            0 <= t < terms.len() ==> #[trigger] cc.root(t) == before.root(t),
                        cc.size() == old(cc).size(),
                        coarser(*old(cc), *cc),
                        sound(terms, av, *cc),
                        canonical_args.len() == k,
                        forall|j: int|
                            0 <= j < k ==> canonical_args[j] == before.root(#[trigger] tv.args[j]),
                        old(budget).unlimited() ==> budget.unlimited(),
                        batch.wf(),
                        batch.quantum == old(batch).quantum,
                        cc.partition() == before.partition(),
                        list == indices(relevant_terms@),
                        labels0 == old(cc).partition(),
                        whole == pass_cost(terms, list),
                        forall|n: nat| #[trigger]
                            settles_from(terms, list, labels0, n) ==> n * whole >= paid + whole,
                        at + 1 + tv.args.len() <= paid + whole,
                        drawn(stock(old(budget), *old(batch)), stock(budget, *batch), (at + 1 + k) as nat),
                    decreases term.args.len() - k,
                {
                    if !batch.checkpoint(budget) {
                        return false;
                    }
                    proof {
                        assert(drawn(stock(old(budget), *old(batch)), stock(budget, *batch), (at + 1 + k + 1) as nat));
                    }
                    proof {
                        assert(tv.args[k as int] == term.args[k as int].id());
                    }
                    let ghost prior = *cc;
                    let root = cc.find(term.args[k].index());
                    proof {
                        prior.lemma_roots_same(cc, cc.size());
                        assert forall|t: int| 0 <= t < terms.len() implies #[trigger] cc.root(t)
                            == before.root(t) by {
                            assert(prior.root(t) == before.root(t));
                        }
                        assert(sound(terms, av, *cc)) by {
                            assert forall|m: Interp, t: int| #[trigger]
                                equalities_hold(terms, m, av) && 0 <= t < terms.len() implies value(
                                terms,
                                m,
                                t,
                            ) == value(terms, m, #[trigger] cc.root(t)) by {
                                assert(value(terms, m, t) == value(terms, m, prior.root(t)));
                            }
                        }
                    }
                    canonical_args.push(root);
                    k += 1;
                }
                let signature = Signature { fun: term.fun, args: canonical_args, term: term_index };
                let ghost pass = pass_to(terms, list, start.partition(), i as nat);
                proof {
                    assert(list[i as int] == term_index);
                    assert(sig_key(signature).1 =~= signature_of(
                        terms,
                        pass.labels,
                        term_index as int,
                    ).1);
                    assert(pass_to(terms, list, start.partition(), (i + 1) as nat) == stepped(
                        terms,
                        pass,
                        term_index as int,
                    ));
                    assert(entry_for(terms, *cc, signature, term_index as int));
                    assert(signatures_sound(terms, *cc, signatures@)) by {
                        assert forall|e: int| 0 <= e < signatures.len() implies #[trigger] owns(
                            terms,
                            *cc,
                            signatures@[e],
                        ) by {
                            assert(owns(terms, before, signatures@[e]));
                            lemma_owns_same(terms, before, *cc, signatures@[e]);
                        }
                    }
                }
                match Self::find_signature(&signatures, &signature) {
                    Some(e) => {
                        let other_term = signatures[e].term;
                        proof {
                            assert(sig_key(signatures@[e as int]).1 =~= sig_key(signature).1);
                            assert(pass.table.contains_key(sig_key(signatures@[e as int])));
                        }
                        let ghost prior = *cc;
                        proof {
                            assert(owns(terms, *cc, signatures@[e as int]));
                            lemma_same_signature_sound(
                                terms,
                                av,
                                *cc,
                                signatures@[e as int],
                                signature,
                            );
                        }
                        let merged = cc.union(term_index, other_term);
                        changed = changed || merged;
                        proof {
                            lemma_union_sound(
                                terms,
                                av,
                                prior,
                                *cc,
                                term_index as int,
                                other_term as int,
                            );
                            assert(coarser(start, *cc));
                            assert(coarser(*old(cc), *cc));
                            assert(signatures_sound(terms, *cc, signatures@)) by {
                                assert forall|x: int| 0 <= x < signatures.len() implies #[trigger] owns(
                                    terms,
                                    *cc,
                                    signatures@[x],
                                ) by {
                                    assert(owns(terms, prior, signatures@[x]));
                                    lemma_owns_coarser(terms, prior, *cc, signatures@[x]);
                                }
                            }
                            if !changed {
                                assert forall|t: int| 0 <= t < terms.len() implies #[trigger] cc.root(t)
                                    == start.root(t) by {
                                    assert(prior.root(t) == start.root(t));
                                }
                                assert(has_entry(terms, start, signatures@, term_index as int)) by {
                                    let w = signatures@[e as int];
                                    assert(entry_for(terms, start, w, term_index as int));
                                    assert(start.root(w.term as int) == start.root(
                                        term_index as int,
                                    ));
                                }
                            }
                        }
                    },
                    None => {
                        let ghost sigs0 = signatures@;
                        let ghost sig = signature;
                        signatures.push(signature);
                        proof {
                            lemma_tabled_push(sigs0, sig, pass.table);
                            lemma_entry_owns(terms, *cc, sig);
                            if !changed {
                                assert forall|j: int| 0 <= j < i + 1 implies has_entry(
                                    terms,
                                    start,
                                    signatures@,
                                    #[trigger] relevant_terms[j] as int,
                                ) by {
                                    let t = relevant_terms[j] as int;
                                    if j < i {
                                        let e = choose|e: int|
                                            0 <= e < sigs0.len() && entry_for(
                                                terms,
                                                start,
                                                #[trigger] sigs0[e],
                                                t,
                                            ) && start.root(sigs0[e].term as int) == start.root(t);
                                        assert(signatures@[e] == sigs0[e]);
                                    } else {
                                        assert(signatures@[sigs0.len() as int] == sig);
                                        assert(entry_for(terms, start, sig, t));
                                    }
                                }
                            }
                        }
                    },
                }
                i += 1;
            }
            proof {
                let pass = pass_to(terms, list, start.partition(), list.len());
                assert(pass_changes(terms, list, labels0, passes) == changed);
                assert(labels_after(terms, list, labels0, passes + 1) == pass.labels);
                assert((passes + 1) * whole == passes * whole + whole) by (nonlinear_arith);
                passes = passes + 1;
                paid = paid + whole;
                assert(drawn(stock(old(budget), *old(batch)), stock(budget, *batch), paid));
            }
            if !changed {
                proof {
                    assert(settles_from(terms, list, labels0, passes));
                    lemma_bucketed_congruence(terms, start, *cc, signatures@, relevant_terms@);
                }
                return true;
            }
        }
    }

    /// Finds the table entry with the same symbol and canonical arguments as `probe`.
    fn find_signature(signatures: &Vec<Signature>, probe: &Signature) -> (found: Option<usize>)
        ensures
            found matches Some(e) ==> e < signatures.len() && signatures[e as int].fun == probe.fun
                && signatures[e as int].args@ == probe.args@,
            found is None ==> forall|e: int|
                0 <= e < signatures.len() ==> !((#[trigger] signatures[e]).fun == probe.fun
                    && signatures[e].args@ == probe.args@),
    {
        let mut e: usize = 0;
        while e < signatures.len()
            invariant
                0 <= e <= signatures.len(),
                forall|x: int|
                    0 <= x < e ==> !((#[trigger] signatures[x]).fun == probe.fun
                        && signatures[x].args@ == probe.args@),
            decreases signatures.len() - e,
        {
            if signatures[e].fun == probe.fun && same_indices(&signatures[e].args, &probe.args) {
                return Some(e);
            }
            e += 1;
        }
        None
    }
}

/// A disequality that the equalities contradict leaves no interpretation for all atoms.
pub proof fn lemma_violated_unsatisfiable(terms: Seq<TermView>, atoms: Seq<AtomView>, i: int)
    requires
        violated(terms, atoms, i),
    ensures
        !satisfiable(terms, atoms),
{
    if satisfiable(terms, atoms) {
        let m = choose|m: Interp| atoms_hold(terms, m, atoms);
        assert forall|j: int| 0 <= j < atoms.len() && (#[trigger] atoms[j]).equal implies
            crate::semantics::atom_holds(terms, m, atoms[j]) by {}
        assert(equalities_hold(terms, m, atoms));
        assert(crate::semantics::atom_holds(terms, m, atoms[i]));
    }
}

/// The table entry's own term has the entry's signature.
spec fn owns(terms: Seq<TermView>, cc: Congruence, e: Signature) -> bool {
    &&& 0 <= e.term < terms.len()
    &&& e.fun.id() == terms[e.term as int].fun
    &&& e.args.len() == terms[e.term as int].args.len()
    &&& forall|k: int|
        0 <= k < e.args.len() ==> (#[trigger] e.args@[k]) < terms.len() && cc.root(
            e.args[k] as int,
        ) == cc.root(terms[e.term as int].args[k])
}

spec fn signatures_sound(terms: Seq<TermView>, cc: Congruence, sigs: Seq<Signature>) -> bool {
    forall|e: int| 0 <= e < sigs.len() ==> #[trigger] owns(terms, cc, sigs[e])
}

spec fn signatures_distinct(sigs: Seq<Signature>) -> bool {
    forall|a: int, b: int|
        0 <= a < sigs.len() && 0 <= b < sigs.len() && (#[trigger] sigs[a]).fun == (
        #[trigger] sigs[b]).fun && sigs[a].args@ == sigs[b].args@ ==> a == b
}

spec fn has_entry(terms: Seq<TermView>, cc: Congruence, sigs: Seq<Signature>, t: int) -> bool {
    exists|e: int|
        0 <= e < sigs.len() && entry_for(terms, cc, #[trigger] sigs[e], t) && cc.root(
            sigs[e].term as int,
        ) == cc.root(t)
}

proof fn lemma_owns_same(terms: Seq<TermView>, a: Congruence, b: Congruence, e: Signature)
    requires
        well_founded(terms),
        a.size() == terms.len(),
        owns(terms, a, e),
        forall|t: int| 0 <= t < terms.len() ==> #[trigger] b.root(t) == a.root(t),
    ensures
        owns(terms, b, e),
{
    assert forall|k: int| 0 <= k < e.args.len() implies b.root((#[trigger] e.args@[k]) as int)
        == b.root(terms[e.term as int].args[k]) by {
        let arg = terms[e.term as int].args[k];
        assert(b.root(arg) == a.root(arg));
    }
}

proof fn lemma_owns_coarser(terms: Seq<TermView>, a: Congruence, b: Congruence, e: Signature)
    requires
        well_founded(terms),
        a.size() == terms.len(),
        owns(terms, a, e),
        coarser(a, b),
    ensures
        owns(terms, b, e),
{
    assert forall|k: int| 0 <= k < e.args.len() implies b.root((#[trigger] e.args@[k]) as int)
        == b.root(terms[e.term as int].args[k]) by {
        let arg = terms[e.term as int].args[k];
        assert(a.root(e.args@[k] as int) == a.root(arg));
    }
}

proof fn lemma_entry_owns(terms: Seq<TermView>, cc: Congruence, e: Signature)
    requires
        well_founded(terms),
        cc.wf(),
        cc.size() == terms.len(),
        0 <= e.term < terms.len(),
        entry_for(terms, cc, e, e.term as int),
    ensures
        owns(terms, cc, e),
{
    assert forall|k: int| 0 <= k < e.args.len() implies (#[trigger] e.args@[k]) < terms.len()
        && cc.root(e.args@[k] as int) == cc.root(terms[e.term as int].args[k]) by {
        let arg = terms[e.term as int].args[k];
        cc.lemma_root(arg);
    }
}

/// Two table entries with one signature name terms that are equal wherever the equalities hold.
proof fn lemma_same_signature_sound(
    terms: Seq<TermView>,
    atoms: Seq<AtomView>,
    cc: Congruence,
    a: Signature,
    b: Signature,
)
    requires
        well_founded(terms),
        cc.wf(),
        cc.size() == terms.len(),
        sound(terms, atoms, cc),
        owns(terms, cc, a),
        0 <= b.term < terms.len(),
        entry_for(terms, cc, b, b.term as int),
        a.fun == b.fun,
        a.args@ == b.args@,
    ensures
        forall|m: Interp| #[trigger]
            equalities_hold(terms, m, atoms) ==> value(terms, m, a.term as int) == value(
                terms,
                m,
                b.term as int,
            ),
{
    let s = a.term as int;
    let t = b.term as int;
    assert forall|m: Interp| #[trigger] equalities_hold(terms, m, atoms) implies value(terms, m, s)
        == value(terms, m, t) by {
        assert forall|k: int| 0 <= k < terms[s].args.len() implies value(
            terms,
            m,
            #[trigger] terms[s].args[k],
        ) == value(terms, m, terms[t].args[k]) by {
            let x = terms[s].args[k];
            let y = terms[t].args[k];
            assert(a.args@[k] == b.args@[k]);
            assert(b.args[k] == cc.root(y));
            cc.lemma_root(y);
            assert(cc.root(x) == cc.root(y));
            assert(value(terms, m, x) == value(terms, m, cc.root(x)));
            assert(value(terms, m, y) == value(terms, m, cc.root(y)));
        }
        lemma_value_congruence(terms, m, s, t);
    }
}

/// Merging two terms that are equal wherever the equalities hold keeps the state sound.
proof fn lemma_union_sound(
    terms: Seq<TermView>,
    atoms: Seq<AtomView>,
    a: Congruence,
    b: Congruence,
    left: int,
    right: int,
)
    requires
        a.wf(),
        b.wf(),
        a.size() == terms.len(),
        b.size() == terms.len(),
        sound(terms, atoms, a),
        0 <= left < terms.len(),
        0 <= right < terms.len(),
        forall|m: Interp| #[trigger]
            equalities_hold(terms, m, atoms) ==> value(terms, m, left) == value(terms, m, right),
        ({
            let l = a.root(left);
            let r = a.root(right);
            ||| forall|j: int|
                0 <= j < a.size() ==> #[trigger] b.root(j) == if a.root(j) == l {
                    r
                } else {
                    a.root(j)
                }
            ||| forall|j: int|
                0 <= j < a.size() ==> #[trigger] b.root(j) == if a.root(j) == r {
                    l
                } else {
                    a.root(j)
                }
        }),
    ensures
        sound(terms, atoms, b),
        coarser(a, b),
        b.root(left) == b.root(right),
{
    assert forall|m: Interp, i: int| #[trigger]
        equalities_hold(terms, m, atoms) && 0 <= i < terms.len() implies value(terms, m, i)
        == value(terms, m, #[trigger] b.root(i)) by {
        assert(value(terms, m, i) == value(terms, m, a.root(i)));
        assert(value(terms, m, left) == value(terms, m, a.root(left)));
        assert(value(terms, m, right) == value(terms, m, a.root(right)));
    }
    assert forall|i: int, j: int|
        0 <= i < a.size() && 0 <= j < a.size() && #[trigger] a.root(i) == #[trigger] a.root(
            j,
        ) implies b.root(i) == b.root(j) by {}
    assert(b.root(left) == b.root(right));
}

proof fn lemma_union_keeps(
    terms: Seq<TermView>,
    atoms: Seq<AtomView>,
    a: Congruence,
    b: Congruence,
    left: int,
    right: int,
    i: int,
)
    requires
        a.wf(),
        b.wf(),
        a.size() == terms.len(),
        b.size() == terms.len(),
        atoms_in_range(terms, atoms),
        sound(terms, atoms, a),
        0 <= i < atoms.len(),
        atoms[i] == (AtomView { equal: true, lhs: left, rhs: right }),
        merged(atoms, a, i),
        ({
            let l = a.root(left);
            let r = a.root(right);
            ||| forall|j: int|
                0 <= j < a.size() ==> #[trigger] b.root(j) == if a.root(j) == l {
                    r
                } else {
                    a.root(j)
                }
            ||| forall|j: int|
                0 <= j < a.size() ==> #[trigger] b.root(j) == if a.root(j) == r {
                    l
                } else {
                    a.root(j)
                }
        }),
    ensures
        sound(terms, atoms, b),
        merged(atoms, b, i + 1),
{
    assert forall|m: Interp| #[trigger] equalities_hold(terms, m, atoms) implies value(
        terms,
        m,
        left,
    ) == value(terms, m, right) by {
        assert(crate::semantics::atom_holds(terms, m, atoms[i]));
    }
    lemma_union_sound(terms, atoms, a, b, left, right);
    assert forall|j: int| 0 <= j < i + 1 && (#[trigger] atoms[j]).equal implies b.root(atoms[j].lhs)
        == b.root(atoms[j].rhs) by {
        if j < i {
            assert(a.root(atoms[j].lhs) == a.root(atoms[j].rhs));
        }
    }
}

/// A pass over the terms in which no merge happened leaves a congruence.
proof fn lemma_bucketed_congruence(
    terms: Seq<TermView>,
    start: Congruence,
    cc: Congruence,
    sigs: Seq<Signature>,
    list: Seq<usize>,
)
    requires
        well_founded(terms),
        start.wf(),
        cc.wf(),
        start.size() == terms.len(),
        cc.size() == terms.len(),
        forall|t: int| 0 <= t < terms.len() ==> #[trigger] cc.root(t) == start.root(t),
        signatures_distinct(sigs),
        forall|j: int| 0 <= j < list.len() ==> (#[trigger] list[j]) < terms.len(),
        forall|j: int|
            0 <= j < list.len() ==> has_entry(terms, start, sigs, #[trigger] list[j] as int),
    ensures
        congruence_on(terms, listed(list), labels(cc)),
{
    let set = listed(list);
    let label = labels(cc);
    assert forall|s: int, t: int|
        0 <= s < terms.len() && 0 <= t < terms.len() && set(s) && set(t) && #[trigger] same_signature(
            terms,
            label,
            s,
            t,
        ) implies label(s) == label(t) by {
        let i = choose|i: int| 0 <= i < list.len() && #[trigger] list[i] == s;
        let j = choose|j: int| 0 <= j < list.len() && #[trigger] list[j] == t;
        assert(has_entry(terms, start, sigs, list[i] as int));
        assert(has_entry(terms, start, sigs, list[j] as int));
        let a = choose|e: int|
            0 <= e < sigs.len() && entry_for(terms, start, #[trigger] sigs[e], s) && start.root(
                sigs[e].term as int,
            ) == start.root(s);
        let b = choose|e: int|
            0 <= e < sigs.len() && entry_for(terms, start, #[trigger] sigs[e], t) && start.root(
                sigs[e].term as int,
            ) == start.root(t);
        assert(sigs[a].args@ =~= sigs[b].args@) by {
            assert forall|k: int| 0 <= k < terms[s].args.len() implies sigs[a].args@[k]
                == sigs[b].args@[k] by {
                let x = terms[s].args[k];
                let y = terms[t].args[k];
                assert(label(x) == label(y));
                assert(cc.root(x) == start.root(x));
                assert(cc.root(y) == start.root(y));
                assert(sigs[a].args[k] == start.root(x));
                assert(sigs[b].args[k] == start.root(y));
            }
        }
        assert(sigs[a].fun == sigs[b].fun);
        assert(a == b);
    }
}

spec fn count_unseen(seen: Seq<bool>, n: int) -> nat
    decreases n,
{
    if n <= 0 {
        0
    } else {
        count_unseen(seen, n - 1) + if seen[n - 1] {
            0nat
        } else {
            1
        }
    }
}

proof fn lemma_unseen_all(seen: Seq<bool>) -> (n: nat)
    ensures
        n == count_unseen(seen, seen.len() as int),
{
    count_unseen(seen, seen.len() as int)
}

proof fn lemma_unseen_mark(seen: Seq<bool>, i: int, n: int)
    requires
        0 <= i < seen.len(),
        0 <= n <= seen.len(),
        !seen[i],
    ensures
        count_unseen(seen.update(i, true), n) == if i < n {
            count_unseen(seen, n) - 1
        } else {
            count_unseen(seen, n) as int
        },
        i < n ==> count_unseen(seen, n) > 0,
    decreases n,
{
    if n > 0 {
        lemma_unseen_mark(seen, i, n - 1);
    }
}

spec fn reached(seen: Seq<bool>, stack: Seq<usize>, t: int) -> bool {
    0 <= t < seen.len() && (seen[t] || listed(stack)(t))
}

proof fn lemma_listed_push(list: Seq<usize>, x: usize)
    ensures
        listed(list.push(x))(x as int),
        forall|t: int| #[trigger] listed(list.push(x))(t) <==> listed(list)(t) || t == x,
{
    let more = list.push(x);
    assert(more[list.len() as int] == x);
    assert forall|t: int| #[trigger] listed(more)(t) <==> listed(list)(t) || t == x by {
        if listed(list)(t) {
            let i = choose|i: int| 0 <= i < list.len() && #[trigger] list[i] == t;
            assert(more[i] == t);
        }
        if listed(more)(t) {
            let i = choose|i: int| 0 <= i < more.len() && #[trigger] more[i] == t;
            if i < list.len() {
                assert(list[i] == t);
            }
        }
    }
}

proof fn lemma_mentioned_step(terms: Seq<TermView>, atoms: Seq<AtomView>, t: int, k: int)
    requires
        well_founded(terms),
        0 <= t < terms.len(),
        mentioned(terms, atoms, t),
        0 <= k < terms[t].args.len(),
    ensures
        mentioned(terms, atoms, terms[t].args[k]),
{
    let i = choose|i: int|
        0 <= i < atoms.len() && (subterm(terms, (#[trigger] atoms[i]).lhs, t) || subterm(
            terms,
            atoms[i].rhs,
            t,
        ));
    if subterm(terms, atoms[i].lhs, t) {
        lemma_subterm_step(terms, atoms[i].lhs, t, k);
    } else {
        lemma_subterm_step(terms, atoms[i].rhs, t, k);
    }
}

impl Default for EufSolver {
    fn default() -> (solver: Self)
        ensures
            solver.wf(),
            solver.table() == Seq::<Term>::empty(),
            solver.fun_count() == 0,
    {
        EufSolver::new()
    }
}

} // verus!
