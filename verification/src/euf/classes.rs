//! Equality classes of terms with a log that takes merges back.

use crate::euf::ids::{EClassId, TermId};
use crate::sums::{
    lemma_sum_ones, lemma_sum_pair, lemma_sum_update, sum_to,
};
use vstd::prelude::*;

verus! {

/// One reversible mutation record.
#[derive(Debug, Clone, Copy, PartialEq, Eq, Structural)]
pub enum Undo {
    /// Parent pointer change.
    Parent {
        /// Node updated in `parent`.
        node: TermId,
        /// Previous parent value.
        old_parent: EClassId,
    },
    /// Class-size update for a surviving root.
    ClassSize {
        /// Root updated in `class_size`.
        root: EClassId,
        /// Previous class size.
        old_size: u32,
    },
    /// Circular class-membership successor change.
    ClassNext {
        /// Node updated in `next`.
        node: TermId,
        /// Previous successor value.
        old_next: TermId,
    },
}

/// Parent pointers, class sizes and membership links of all terms.
#[verifier::ext_equal]
pub struct ClassState {
    /// Parent pointer of each term; representatives point to themselves.
    pub parent: Seq<EClassId>,
    /// Number of terms in each class, by representative.
    pub size: Seq<u32>,
    /// Successor of each term in the circular list of its class.
    pub next: Seq<TermId>,
}

impl ClassState {
    /// The pointers form trees whose roots know the size of their class.
    pub open spec fn trees(self) -> bool {
        let n = self.parent.len();
        &&& n <= u32::MAX
        &&& self.size.len() == n
        &&& self.next.len() == n
        &&& forall|t: int| 0 <= t < n ==> (#[trigger] self.parent[t]).0 < n
        &&& forall|t: int| 0 <= t < n ==> (#[trigger] self.size[t]) >= 1
        &&& forall|t: int|
            0 <= t < n && self.parent[t].0 != t ==> self.size[t] < self.size[(
            #[trigger] self.parent[t]).0 as int]
        &&& sum_to(self.weights(), n as int) == n
    }

    /// The size of the class at each representative, zero at all other terms.
    pub open spec fn weights(self) -> Seq<nat> {
        Seq::new(
            self.parent.len(),
            |t: int|
                if self.parent[t].0 == t {
                    self.size[t] as nat
                } else {
                    0
                },
        )
    }

    /// The representative of `t`.
    pub open spec fn root(self, t: int) -> int
        decreases 0x1_0000_0000 - self.size[t],
        when self.trees() && 0 <= t < self.parent.len()
    {
        if self.parent[t].0 == t {
            t
        } else {
            self.root(self.parent[t].0 as int)
        }
    }

    /// `s` and `t` are in one class.
    pub open spec fn same(self, s: int, t: int) -> bool {
        self.root(s) == self.root(t)
    }

    /// `list` walks once around the circular list of the class of representative `r`.
    pub open spec fn tour(self, r: int, list: Seq<int>) -> bool {
        &&& list.len() >= 1
        &&& list[0] == r
        &&& list.no_duplicates()
        &&& forall|k: int|
            0 <= k < list.len() ==> 0 <= (#[trigger] list[k]) < self.parent.len() && self.root(
                list[k],
            ) == r
        &&& forall|k: int|
            0 <= k < list.len() ==> self.next[#[trigger] list[k]].0 == if k + 1 < list.len() {
                list[k + 1]
            } else {
                r
            }
        &&& forall|t: int|
            0 <= t < self.parent.len() && #[trigger] self.root(t) == r ==> list.contains(t)
    }

    /// Every class has a circular list of its members.
    pub open spec fn listed(self) -> bool {
        forall|r: int|
            0 <= r < self.parent.len() && (#[trigger] self.parent[r]).0 == r ==> exists|list: Seq<
                int,
            >|
                self.tour(r, list)
    }

    /// The state is consistent.
    pub open spec fn ok(self) -> bool {
        self.trees() && self.listed()
    }

    /// Number of representatives among the first `n` terms.
    pub open spec fn roots_to(self, n: int) -> nat
        decreases n,
    {
        if n <= 0 {
            0
        } else {
            self.roots_to(n - 1) + if self.parent[n - 1].0 == n - 1 {
                1nat
            } else {
                0
            }
        }
    }

    /// The number of classes.
    pub open spec fn class_count(self) -> nat {
        self.roots_to(self.parent.len() as int)
    }

    /// The state before one logged mutation.
    pub open spec fn undo(self, entry: Undo) -> ClassState {
        match entry {
            Undo::Parent { node, old_parent } => ClassState {
                parent: self.parent.update(node.0 as int, old_parent),
                ..self
            },
            Undo::ClassSize { root, old_size } => ClassState {
                size: self.size.update(root.0 as int, old_size),
                ..self
            },
            Undo::ClassNext { node, old_next } => ClassState {
                next: self.next.update(node.0 as int, old_next),
                ..self
            },
        }
    }

    /// The state before all but the first `len` logged mutations.
    pub open spec fn unwind(self, log: Seq<Undo>, len: int) -> ClassState
        decreases log.len(),
    {
        if log.len() <= len || log.len() == 0 {
            self
        } else {
            self.undo(log.last()).unwind(log.drop_last(), len)
        }
    }

    /// Representatives are representatives of themselves.
    pub proof fn lemma_root(self, t: int)
        requires
            self.trees(),
            0 <= t < self.parent.len(),
        ensures
            0 <= self.root(t) < self.parent.len(),
            self.parent[self.root(t)].0 == self.root(t),
            self.root(self.root(t)) == self.root(t),
        decreases 0x1_0000_0000 - self.size[t],
    {
        if self.parent[t].0 != t {
            self.lemma_root(self.parent[t].0 as int);
        }
    }

    proof fn lemma_merge_root(self, new: ClassState, a: int, b: int, t: int)
        requires
            self.trees(),
            new.trees(),
            0 <= a < self.parent.len(),
            0 <= b < self.parent.len(),
            0 <= t < self.parent.len(),
            a != b,
            self.parent[a].0 == a,
            self.parent[b].0 == b,
            new.parent == self.parent.update(a, EClassId(b as u32)),
        ensures
            new.root(t) == if self.root(t) == a {
                b
            } else {
                self.root(t)
            },
        decreases 0x1_0000_0000 - self.size[t],
    {
        if t == a {
            assert(new.parent[b].0 == b);
            assert(new.root(b) == b);
        } else if self.parent[t].0 != t {
            self.lemma_merge_root(new, a, b, self.parent[t].0 as int);
        }
    }

    proof fn lemma_merge_count(self, new: ClassState, a: int, b: int, n: int)
        requires
            0 <= a < self.parent.len(),
            0 <= b <= u32::MAX,
            a != b,
            self.parent[a].0 == a,
            new.parent == self.parent.update(a, EClassId(b as u32)),
            0 <= n <= self.parent.len(),
        ensures
            new.roots_to(n) == if a < n {
                self.roots_to(n) - 1
            } else {
                self.roots_to(n) as int
            },
        decreases n,
    {
        if n > 0 {
            self.lemma_merge_count(new, a, b, n - 1);
        }
    }

    proof fn lemma_count_positive(self, r: int, n: int)
        requires
            0 <= r < n <= self.parent.len(),
            self.parent[r].0 == r,
        ensures
            self.roots_to(n) >= 1,
        decreases n,
    {
        if r < n - 1 {
            self.lemma_count_positive(r, n - 1);
        }
    }

    /// There is a class as long as there is a term.
    pub proof fn lemma_some_class(self)
        requires
            self.trees(),
            self.parent.len() > 0,
        ensures
            self.class_count() >= 1,
    {
        self.lemma_root(0);
        self.lemma_count_positive(self.root(0), self.parent.len() as int);
    }

    /// Unwinding past a logged mutation goes through the state before it.
    pub proof fn lemma_unwind_push(self, before: ClassState, log: Seq<Undo>, entry: Undo, len: int)
        requires
            self.undo(entry) == before,
            0 <= len <= log.len(),
        ensures
            self.unwind(log.push(entry), len) == before.unwind(log, len),
    {
        assert(log.push(entry).drop_last() =~= log);
    }

    /// Unwinding in two steps is unwinding at once.
    pub proof fn lemma_unwind_steps(self, log: Seq<Undo>, mid: int, len: int)
        requires
            0 <= len <= mid <= log.len(),
        ensures
            self.unwind(log, mid).unwind(log.take(mid), len) == self.unwind(log, len),
        decreases log.len(),
    {
        if log.len() > mid {
            self.undo(log.last()).lemma_unwind_steps(log.drop_last(), mid, len);
            assert(log.drop_last().take(mid) =~= log.take(mid));
        } else {
            assert(log.take(mid) =~= log);
        }
    }

    /// The state after the class of `a` has been moved below `b`.
    pub open spec fn merged(self, a: int, b: int) -> ClassState {
        ClassState {
            parent: self.parent.update(a, EClassId(b as u32)),
            size: self.size.update(b, (self.size[b] + self.size[a]) as u32),
            next: self.next.update(b, self.next[a]).update(a, self.next[b]),
        }
    }

    #[verifier::rlimit(40)]
    proof fn lemma_merged(self, a: int, b: int)
        requires
            self.ok(),
            0 <= a < self.parent.len(),
            0 <= b < self.parent.len(),
            a != b,
            self.parent[a].0 == a,
            self.parent[b].0 == b,
            self.size[a] <= self.size[b],
        ensures
            self.size[a] + self.size[b] <= u32::MAX,
            self.merged(a, b).ok(),
            forall|t: int|
                0 <= t < self.parent.len() ==> #[trigger] self.merged(a, b).root(t) == if self.root(t)
                    == a {
                    b
                } else {
                    self.root(t)
                },
            self.merged(a, b).class_count() == self.class_count() - 1,
    {
        let s4 = self.merged(a, b);
        let n = self.parent.len() as int;
        let w0 = self.weights();
        lemma_sum_pair(w0, n, a, b);
        assert(w0[a] == self.size[a]);
        assert(w0[b] == self.size[b]);
        let w1 = w0.update(b, w0[a] + w0[b]);
        lemma_sum_update(w0, n, b, w0[a] + w0[b]);
        lemma_sum_update(w1, n, a, 0);
        assert(s4.weights() =~= w1.update(a, 0));
        assert forall|t: int| 0 <= t < n && s4.parent[t].0 != t implies s4.size[t] < s4.size[(
        #[trigger] s4.parent[t]).0 as int] by {
            if t != a {
                assert(self.parent[t].0 != t);
                assert(s4.parent[t] == self.parent[t]);
            }
        }
        assert(s4.trees());
        assert forall|t: int| 0 <= t < n implies #[trigger] s4.root(t) == if self.root(t) == a {
            b
        } else {
            self.root(t)
        } by {
            self.lemma_merge_root(s4, a, b, t);
        }
        self.lemma_splice(s4, a, b);
        self.lemma_merge_count(s4, a, b, n);
    }

    /// The members of both classes, in the order in which the spliced list visits them.
    spec fn spliced(la: Seq<int>, lb: Seq<int>) -> Seq<int> {
        Seq::new(
            la.len() + lb.len(),
            |k: int|
                if k == 0 {
                    lb[0]
                } else if k < la.len() {
                    la[k]
                } else if k == la.len() {
                    la[0]
                } else {
                    lb[k - la.len()]
                },
        )
    }

    proof fn lemma_spliced_distinct(self, a: int, b: int, la: Seq<int>, lb: Seq<int>)
        requires
            a != b,
            self.tour(a, la),
            self.tour(b, lb),
        ensures
            Self::spliced(la, lb).no_duplicates(),
    {
        let whole = Self::spliced(la, lb);
        let na = la.len() as int;
        assert forall|i: int, j: int|
            0 <= i < whole.len() && 0 <= j < whole.len() && i != j implies whole[i] != whole[j] by {
            let ra = if i == 0 || i > na {
                b
            } else {
                a
            };
            let rb = if j == 0 || j > na {
                b
            } else {
                a
            };
            assert(self.root(la[0]) == a && self.root(lb[0]) == b);
            if 0 < i < na {
                assert(self.root(la[i]) == a && la[i] != la[0]);
            }
            if i > na {
                assert(self.root(lb[i - na]) == b && lb[i - na] != lb[0]);
            }
            if 0 < j < na {
                assert(self.root(la[j]) == a && la[j] != la[0]);
            }
            if j > na {
                assert(self.root(lb[j - na]) == b && lb[j - na] != lb[0]);
            }
            assert(self.root(whole[i]) == ra && self.root(whole[j]) == rb);
        }
    }

    proof fn lemma_spliced_next(
        self,
        new: ClassState,
        a: int,
        b: int,
        la: Seq<int>,
        lb: Seq<int>,
        k: int,
    )
        requires
            a != b,
            self.trees(),
            0 <= a < self.parent.len(),
            0 <= b < self.parent.len(),
            self.tour(a, la),
            self.tour(b, lb),
            new.next == self.next.update(b, self.next[a]).update(a, self.next[b]),
            0 <= k < la.len() + lb.len(),
        ensures
            new.next[Self::spliced(la, lb)[k]].0 == if k + 1 < la.len() + lb.len() {
                Self::spliced(la, lb)[k + 1]
            } else {
                b
            },
    {
        let na = la.len() as int;
        let nb = lb.len() as int;
        assert(self.root(la[0]) == a && self.root(lb[0]) == b);
        if k == 0 {
            assert(self.next[la[0]].0 == if 1 < na {
                la[1]
            } else {
                a
            });
        } else if k < na {
            assert(la[k] != la[0]);
            assert(self.root(la[k]) == a);
            assert(self.next[la[k]].0 == if k + 1 < na {
                la[k + 1]
            } else {
                a
            });
        } else if k == na {
            assert(self.next[lb[0]].0 == if 1 < nb {
                lb[1]
            } else {
                b
            });
        } else {
            assert(lb[k - na] != lb[0]);
            assert(self.root(lb[k - na]) == b);
            assert(self.next[lb[k - na]].0 == if k - na + 1 < nb {
                lb[k - na + 1]
            } else {
                b
            });
        }
    }

    proof fn lemma_splice_whole(
        self,
        new: ClassState,
        a: int,
        b: int,
        la: Seq<int>,
        lb: Seq<int>,
    )
        requires
            self.ok(),
            new.trees(),
            0 <= a < self.parent.len(),
            0 <= b < self.parent.len(),
            a != b,
            self.parent[a].0 == a,
            self.parent[b].0 == b,
            new.parent == self.parent.update(a, EClassId(b as u32)),
            new.next == self.next.update(b, self.next[a]).update(a, self.next[b]),
            forall|t: int|
                0 <= t < self.parent.len() ==> #[trigger] new.root(t) == if self.root(t) == a {
                    b
                } else {
                    self.root(t)
                },
            self.tour(a, la),
            self.tour(b, lb),
        ensures
            new.tour(b, Self::spliced(la, lb)),
    {
        let whole = Self::spliced(la, lb);
        let na = la.len() as int;
        self.lemma_spliced_distinct(a, b, la, lb);
        assert forall|k: int| 0 <= k < whole.len() implies 0 <= (#[trigger] whole[k])
            < new.parent.len() && new.root(whole[k]) == b by {
            assert(self.root(la[0]) == a && self.root(lb[0]) == b);
            if 0 < k < na {
                assert(self.root(la[k]) == a);
            } else if k > na {
                assert(self.root(lb[k - na]) == b);
            }
        }
        assert forall|k: int| 0 <= k < whole.len() implies new.next[#[trigger] whole[k]].0 == if k
            + 1 < whole.len() {
            whole[k + 1]
        } else {
            b
        } by {
            self.lemma_spliced_next(new, a, b, la, lb, k);
        }
        assert forall|t: int| 0 <= t < new.parent.len() && #[trigger] new.root(t)
            == b implies whole.contains(t) by {
            if self.root(t) == a {
                assert(la.contains(t));
                let k = choose|k: int| 0 <= k < la.len() && la[k] == t;
                if k == 0 {
                    assert(whole[na] == t);
                } else {
                    assert(whole[k] == t);
                }
            } else {
                assert(self.root(t) == b);
                assert(lb.contains(t));
                let k = choose|k: int| 0 <= k < lb.len() && lb[k] == t;
                if k == 0 {
                    assert(whole[0] == t);
                } else {
                    assert(whole[na + k] == t);
                }
            }
        }
    }

    proof fn lemma_splice_other(
        self,
        new: ClassState,
        a: int,
        b: int,
        r: int,
        list: Seq<int>,
    )
        requires
            self.ok(),
            new.trees(),
            0 <= a < self.parent.len(),
            0 <= b < self.parent.len(),
            a != b,
            self.parent[a].0 == a,
            self.parent[b].0 == b,
            new.parent == self.parent.update(a, EClassId(b as u32)),
            new.next == self.next.update(b, self.next[a]).update(a, self.next[b]),
            forall|t: int|
                0 <= t < self.parent.len() ==> #[trigger] new.root(t) == if self.root(t) == a {
                    b
                } else {
                    self.root(t)
                },
            r != a,
            r != b,
            self.tour(r, list),
        ensures
            new.tour(r, list),
    {
        assert(self.root(a) == a && self.root(b) == b);
        assert forall|k: int| 0 <= k < list.len() implies 0 <= (#[trigger] list[k])
            < new.parent.len() && new.root(list[k]) == r by {
            assert(self.root(list[k]) == r);
        }
        assert forall|k: int| 0 <= k < list.len() implies new.next[#[trigger] list[k]].0 == if k + 1
            < list.len() {
            list[k + 1]
        } else {
            r
        } by {
            assert(self.root(list[k]) == r);
            assert(list[k] != a && list[k] != b);
        }
        assert forall|t: int| 0 <= t < new.parent.len() && #[trigger] new.root(t)
            == r implies list.contains(t) by {
            assert(self.root(t) == r);
        }
    }

    /// Splicing two circular lists at their representatives gives a circular list of the union.
    proof fn lemma_splice(self, new: ClassState, a: int, b: int)
        requires
            self.ok(),
            new.trees(),
            0 <= a < self.parent.len(),
            0 <= b < self.parent.len(),
            a != b,
            self.parent[a].0 == a,
            self.parent[b].0 == b,
            new.parent == self.parent.update(a, EClassId(b as u32)),
            new.next == self.next.update(b, self.next[a]).update(a, self.next[b]),
            forall|t: int|
                0 <= t < self.parent.len() ==> #[trigger] new.root(t) == if self.root(t) == a {
                    b
                } else {
                    self.root(t)
                },
        ensures
            new.listed(),
    {
        let la = choose|list: Seq<int>| self.tour(a, list);
        let lb = choose|list: Seq<int>| self.tour(b, list);
        self.lemma_splice_whole(new, a, b, la, lb);
        assert forall|r: int| 0 <= r < new.parent.len() && (#[trigger] new.parent[r]).0
            == r implies exists|list: Seq<int>| new.tour(r, list) by {
            if r == b {
                assert(new.tour(b, Self::spliced(la, lb)));
            } else {
                assert(r != a);
                assert(self.parent[r].0 == r);
                let list = choose|list: Seq<int>| self.tour(r, list);
                self.lemma_splice_other(new, a, b, r, list);
            }
        }
    }
}

/// Equality classes with rollback.
#[derive(Debug)]
pub struct Classes {
    /// Union-find parent of each term.
    parent: Vec<EClassId>,
    /// Number of terms in each current representative class.
    class_size: Vec<u32>,
    /// Successor link for each term in one circular class-membership list.
    next: Vec<TermId>,
    /// Reversible mutation log.
    undo_log: Vec<Undo>,
}

impl Classes {
    /// The pointers, sizes and links.
    pub closed spec fn state(&self) -> ClassState {
        ClassState { parent: self.parent@, size: self.class_size@, next: self.next@ }
    }

    /// The logged mutations.
    pub closed spec fn log(&self) -> Seq<Undo> {
        self.undo_log@
    }

    /// The state is consistent, and the log names existing terms.
    pub open spec fn wf(&self) -> bool {
        self.state().ok() && self.log_in_range()
    }

    /// Every logged mutation names an existing term.
    pub open spec fn log_in_range(&self) -> bool {
        forall|i: int|
            0 <= i < self.log().len() ==> undo_in_range(#[trigger] self.log()[i], self.count())
    }

    /// The number of terms.
    pub open spec fn count(&self) -> nat {
        self.state().parent.len()
    }

    /// Creates classes over no terms.
    pub fn new() -> (classes: Self)
        ensures
            classes.wf(),
            classes.count() == 0,
            classes.log().len() == 0,
            classes.state().class_count() == 0,
    {
        Self { parent: Vec::new(), class_size: Vec::new(), next: Vec::new(), undo_log: Vec::new() }
    }

    /// Puts each of `count` terms in a class of its own and forgets all logged mutations.
    pub fn reset(&mut self, count: usize)
        requires
            count <= u32::MAX,
        ensures
            final(self).wf(),
            final(self).count() == count,
            final(self).log() == Seq::<Undo>::empty(),
            final(self).state().class_count() == count,
            forall|t: int| 0 <= t < count ==> #[trigger] final(self).state().root(t) == t,
    {
        self.parent.clear();
        self.class_size.clear();
        self.next.clear();
        self.undo_log.clear();
        let mut index: usize = 0;
        while index < count
            invariant
                0 <= index <= count,
                count <= u32::MAX,
                self.parent.len() == index,
                self.class_size.len() == index,
                self.next.len() == index,
                self.undo_log@ == Seq::<Undo>::empty(),
                forall|t: int| 0 <= t < index ==> (#[trigger] self.parent[t]).0 == t,
                forall|t: int| 0 <= t < index ==> (#[trigger] self.class_size[t]) == 1,
                forall|t: int| 0 <= t < index ==> (#[trigger] self.next[t]).0 == t,
                self.state().roots_to(index as int) == index,
            decreases count - index,
        {
            let ghost before = self.state();
            self.parent.push(EClassId(index as u32));
            self.class_size.push(1);
            self.next.push(TermId(index as u32));
            proof {
                lemma_roots_prefix(before, self.state(), index as int);
            }
            index += 1;
        }
        proof {
            let s = self.state();
            lemma_sum_ones(s.weights(), count as int);
            assert(s.trees());
            assert forall|r: int| 0 <= r < s.parent.len() && (#[trigger] s.parent[r]).0
                == r implies exists|list: Seq<int>| s.tour(r, list) by {
                assert(s.tour(r, seq![r])) by {
                    assert forall|t: int| 0 <= t < s.parent.len() && #[trigger] s.root(t)
                        == r implies seq![r].contains(t) by {
                        assert(s.parent[t].0 == t);
                        assert(seq![r][0] == t);
                    }
                }
            }
            assert forall|t: int| 0 <= t < count implies #[trigger] s.root(t) == t by {
                assert(s.parent[t].0 == t);
            }
        }
    }

    /// Finds the current class representative of `term`.
    pub fn find(&self, term: TermId) -> (root: EClassId)
        requires
            self.state().trees(),
            term.0 < self.count(),
        ensures
            root.0 == self.state().root(term.0 as int),
            root.0 < self.count(),
            self.state().parent[root.0 as int] == root,
    {
        let mut current: EClassId = EClassId(term.0);
        proof {
            self.state().lemma_root(term.0 as int);
        }
        while self.parent[current.index()] != current
            invariant
                self.state().trees(),
                term.0 < self.count(),
                current.0 < self.count(),
                self.state().root(current.0 as int) == self.state().root(term.0 as int),
            decreases 0x1_0000_0000 - self.state().size[current.0 as int],
        {
            current = self.parent[current.index()];
        }
        current
    }

    /// Returns the number of terms in the class of one representative.
    pub fn class_size(&self, root: EClassId) -> (n: u32)
        requires
            self.state().trees(),
            root.0 < self.count(),
        ensures
            n == self.state().size[root.0 as int],
    {
        self.class_size[root.index()]
    }

    /// Returns the length of the mutation log.
    pub fn undo_len(&self) -> (n: usize)
        ensures
            n == self.log().len(),
    {
        self.undo_log.len()
    }

    /// Lists the members of one class, its representative first.
    pub fn members(&self, root: EClassId) -> (list: Vec<TermId>)
        requires
            self.state().ok(),
            root.0 < self.count(),
            self.state().parent[root.0 as int] == root,
        ensures
            list.len() >= 1,
            list[0].0 == root.0,
            forall|i: int|
                0 <= i < list.len() ==> (#[trigger] list[i]).0 < self.count() && self.state().root(
                    list[i].0 as int,
                ) == root.0,
            forall|t: int|
                0 <= t < self.count() && #[trigger] self.state().root(t) == root.0 ==> list@.contains(
                    TermId(t as u32),
                ),
    {
        let ghost s = self.state();
        let ghost tour = choose|tour: Seq<int>| s.tour(root.0 as int, tour);
        let mut list: Vec<TermId> = Vec::new();
        let start = TermId(root.0);
        let mut term = start;
        proof {
            assert(s.tour(root.0 as int, tour));
        }
        list.push(term);
        term = self.next[term.index()];
        while term != start
            invariant
                s == self.state(),
                s.ok(),
                root.0 < self.count(),
                start.0 == root.0,
                s.tour(root.0 as int, tour),
                1 <= list.len() <= tour.len(),
                forall|i: int| 0 <= i < list.len() ==> (#[trigger] list[i]).0 == tour[i],
                term.0 == if list.len() < tour.len() {
                    tour[list.len() as int]
                } else {
                    root.0 as int
                },
            decreases tour.len() - list.len(),
        {
            proof {
                if list.len() == tour.len() {
                    assert(term == start);
                }
                assert(term.0 == tour[list.len() as int]);
            }
            list.push(term);
            term = self.next[term.index()];
        }
        proof {
            if list.len() < tour.len() {
                assert(tour[list.len() as int] == tour[0]);
            }
            assert forall|i: int| 0 <= i < list.len() implies (#[trigger] list[i]).0 < self.count()
                && s.root(list[i].0 as int) == root.0 by {
                assert(s.root(tour[i]) == root.0);
            }
            assert forall|t: int| 0 <= t < self.count() && #[trigger] s.root(t)
                == root.0 implies list@.contains(TermId(t as u32)) by {
                assert(tour.contains(t));
                let i = choose|i: int| 0 <= i < tour.len() && tour[i] == t;
                assert(list@[i] == TermId(t as u32));
            }
        }
        list
    }

    /// Merges two distinct classes; the larger one keeps its representative, the first one on a tie.
    /// Returns the surviving and the absorbed representative.
    pub fn merge(&mut self, lhs_root: EClassId, rhs_root: EClassId) -> (roots: (EClassId, EClassId))
        requires
            old(self).wf(),
            lhs_root.0 < old(self).count(),
            rhs_root.0 < old(self).count(),
            lhs_root != rhs_root,
            old(self).state().parent[lhs_root.0 as int] == lhs_root,
            old(self).state().parent[rhs_root.0 as int] == rhs_root,
        ensures
            final(self).wf(),
            final(self).count() == old(self).count(),
            roots == if old(self).state().size[lhs_root.0 as int] < old(self).state().size[rhs_root.0 as int] {
                (rhs_root, lhs_root)
            } else {
                (lhs_root, rhs_root)
            },
            forall|t: int|
                0 <= t < old(self).count() ==> #[trigger] final(self).state().root(t) == if old(self).state().root(t) == roots.1.0 {
                    roots.0.0 as int
                } else {
                    old(self).state().root(t)
                },
            final(self).state().class_count() == old(self).state().class_count() - 1,
            final(self).log().len() >= old(self).log().len(),
            forall|len: int|
                0 <= len <= old(self).log().len() ==> #[trigger] final(self).state().unwind(
                    final(self).log(),
                    len,
                ) == old(self).state().unwind(old(self).log(), len),
    {
        let ghost s0 = self.state();
        let ghost log0 = self.undo_log@;
        let (survivor, absorbed) = if self.class_size[lhs_root.index()]
            < self.class_size[rhs_root.index()] {
            (rhs_root, lhs_root)
        } else {
            (lhs_root, rhs_root)
        };
        let ghost a = absorbed.0 as int;
        let ghost b = survivor.0 as int;
        proof {
            s0.lemma_merged(a, b);
        }
        let undo_parent = Undo::Parent {
            node: TermId(absorbed.0),
            old_parent: self.parent[absorbed.index()],
        };
        self.undo_log.push(undo_parent);
        self.parent.set(absorbed.index(), survivor);
        let ghost s1 = self.state();
        proof {
            assert(s1.undo(undo_parent) =~= s0);
        }
        let old_size = self.class_size[survivor.index()];
        let undo_size = Undo::ClassSize { root: survivor, old_size };
        self.undo_log.push(undo_size);
        let absorbed_size = self.class_size[absorbed.index()];
        self.class_size.set(survivor.index(), old_size + absorbed_size);
        let ghost s2 = self.state();
        proof {
            assert(s2.undo(undo_size) =~= s1);
        }
        let survivor_next = self.next[survivor.index()];
        let absorbed_next = self.next[absorbed.index()];
        let undo_survivor = Undo::ClassNext { node: TermId(survivor.0), old_next: survivor_next };
        self.undo_log.push(undo_survivor);
        self.next.set(survivor.index(), absorbed_next);
        let ghost s3 = self.state();
        proof {
            assert(s3.undo(undo_survivor) =~= s2);
        }
        let undo_absorbed = Undo::ClassNext { node: TermId(absorbed.0), old_next: absorbed_next };
        self.undo_log.push(undo_absorbed);
        self.next.set(absorbed.index(), survivor_next);
        let ghost s4 = self.state();
        proof {
            assert(s4.undo(undo_absorbed) =~= s3);
            let log1 = log0.push(undo_parent);
            let log2 = log1.push(undo_size);
            let log3 = log2.push(undo_survivor);
            let log4 = log3.push(undo_absorbed);
            assert(self.undo_log@ =~= log4);
            assert forall|len: int| 0 <= len <= log0.len() implies #[trigger] s4.unwind(log4, len)
                == s0.unwind(log0, len) by {
                s4.lemma_unwind_push(s3, log3, undo_absorbed, len);
                s3.lemma_unwind_push(s2, log2, undo_survivor, len);
                s2.lemma_unwind_push(s1, log1, undo_size, len);
                s1.lemma_unwind_push(s0, log0, undo_parent, len);
            }
            assert(s4 =~= s0.merged(a, b));
        }
        (survivor, absorbed)
    }

    /// Rolls back all logged mutations down to `undo_len`.
    pub fn rollback_to(&mut self, undo_len: usize)
        requires
            undo_len <= old(self).log().len(),
            old(self).log_in_range(),
            old(self).state().size.len() == old(self).count(),
            old(self).state().next.len() == old(self).count(),
        ensures
            final(self).state() == old(self).state().unwind(old(self).log(), undo_len as int),
            final(self).log() == old(self).log().take(undo_len as int),
            final(self).count() == old(self).count(),
            final(self).state().size.len() == final(self).count(),
            final(self).state().next.len() == final(self).count(),
            final(self).log_in_range(),
    {
        let ghost s0 = self.state();
        let ghost log0 = self.log();
        proof {
            assert(log0.take(log0.len() as int) =~= log0);
        }
        while self.undo_log.len() > undo_len
            invariant
                undo_len <= self.log().len() <= log0.len(),
                self.log() == log0.take(self.log().len() as int),
                self.state().unwind(self.log(), undo_len as int) == s0.unwind(
                    log0,
                    undo_len as int,
                ),
                self.count() == s0.parent.len(),
                self.state().size.len() == self.count(),
                self.state().next.len() == self.count(),
                forall|i: int|
                    0 <= i < log0.len() ==> undo_in_range(#[trigger] log0[i], s0.parent.len()),
            decreases self.log().len(),
        {
            let ghost before = self.state();
            let ghost log = self.log();
            let entry = self.undo_log.pop().unwrap();
            proof {
                assert(log.last() == entry);
                assert(log.drop_last() =~= self.log());
                assert(log0[log.len() - 1] == entry);
                assert(self.log() =~= log0.take(self.log().len() as int));
            }
            match entry {
                Undo::Parent { node, old_parent } => {
                    self.parent.set(node.index(), old_parent);
                },
                Undo::ClassSize { root, old_size } => {
                    self.class_size.set(root.index(), old_size);
                },
                Undo::ClassNext { node, old_next } => {
                    self.next.set(node.index(), old_next);
                },
            }
            proof {
                assert(self.state() =~= before.undo(entry));
            }
        }
    }
}

/// The record names a term among the first `count`.
pub open spec fn undo_in_range(entry: Undo, count: nat) -> bool {
    match entry {
        Undo::Parent { node, old_parent } => node.0 < count,
        Undo::ClassSize { root, old_size } => root.0 < count,
        Undo::ClassNext { node, old_next } => node.0 < count,
    }
}

proof fn lemma_roots_prefix(a: ClassState, b: ClassState, n: int)
    requires
        0 <= n <= a.parent.len(),
        n <= b.parent.len(),
        forall|t: int| 0 <= t < n ==> a.parent[t] == b.parent[t],
    ensures
        a.roots_to(n) == b.roots_to(n),
    decreases n,
{
    if n > 0 {
        lemma_roots_prefix(a, b, n - 1);
    }
}

} // verus!
