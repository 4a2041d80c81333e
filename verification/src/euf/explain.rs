//! Equality and conflict explanations.

use crate::euf::closure::{Context, Core, DisequalityEntry};
use crate::euf::ids::TermId;
use crate::euf::proof_graph::{
    as_ints, connected, every, forest, lemma_connected_equivalence, lemma_connected_monotone,
    lemma_path_connects, lemma_path_within, path, path_between, MergeEdge, MergeReason,
};
use crate::euf::registry::Registry;
use crate::euf::search_state::SearchState;
use crate::euf::table::{pair_members, pairs_clear, pairs_insert};
use crate::sat::Lit;
use crate::semantics::{lemma_value_congruence, value, Interp};
use vstd::prelude::*;

verus! {

/// The pair with the smaller index first.
spec fn pair_of(x: int, y: int) -> (u32, u32) {
    if x <= y {
        (x as u32, y as u32)
    } else {
        (y as u32, x as u32)
    }
}

/// What justifies edge `e` is among the collected literals and cached pairs.
spec fn covered(
    edges: Seq<MergeEdge>,
    ctx: Context,
    out: Seq<Lit>,
    cache: Set<(u32, u32)>,
    e: int,
) -> bool {
    match edges[e].reason {
        MergeReason::InputEq { reason_lit } => out.contains(reason_lit),
        MergeReason::Congruence { left_parent, right_parent } => {
            let l = left_parent.0 as int;
            let r = right_parent.0 as int;
            forall|k: int|
                0 <= k < ctx.terms[l].args.len() ==> (#[trigger] ctx.terms[l].args[k])
                    == ctx.terms[r].args[k] || cache.contains(
                    pair_of(ctx.terms[l].args[k], ctx.terms[r].args[k]),
                )
        },
    }
}

/// Selects the covered edges.
spec fn coverage(
    edges: Seq<MergeEdge>,
    ctx: Context,
    out: Seq<Lit>,
    cache: Set<(u32, u32)>,
) -> spec_fn(int) -> bool {
    |e: int| covered(edges, ctx, out, cache, e)
}

/// However few edges connect `x` and `y`, the covered ones among them do.
spec fn explained(
    edges: Seq<MergeEdge>,
    ctx: Context,
    out: Seq<Lit>,
    cache: Set<(u32, u32)>,
    x: int,
    y: int,
) -> bool {
    forall|k: int|
        0 <= k <= edges.len() && #[trigger] connected(edges, every(), k, x, y) ==> connected(
            edges,
            coverage(edges, ctx, out, cache),
            k,
            x,
            y,
        )
}

/// All cached pairs but the open ones are explained.
spec fn all_explained(
    edges: Seq<MergeEdge>,
    ctx: Context,
    out: Seq<Lit>,
    cache: Set<(u32, u32)>,
    open: Set<(u32, u32)>,
) -> bool {
    forall|p: (u32, u32)| #[trigger]
        cache.contains(p) && !open.contains(p) ==> explained(
            edges,
            ctx,
            out,
            cache,
            p.0 as int,
            p.1 as int,
        )
}

/// Every collected literal is a processed equality.
pub open spec fn premises(k: Core, ctx: Context, out: Seq<Lit>) -> bool {
    forall|i: int|
        0 <= i < out.len() ==> {
            let lit = #[trigger] out[i];
            k.lits.contains(lit) && ctx.bound(lit.var) && !lit.negated
        }
}

/// Wherever the equalities of all literals hold, `x` and `y` have equal values.
pub open spec fn implies_equal(ctx: Context, out: Seq<Lit>, x: int, y: int) -> bool {
    forall|m: Interp|
        (forall|i: int| 0 <= i < out.len() ==> #[trigger] ctx.equal_in(m, out[i])) ==> #[trigger] value(
            ctx.terms,
            m,
            x,
        ) == value(ctx.terms, m, y)
}

proof fn lemma_covered_grow(
    edges: Seq<MergeEdge>,
    ctx: Context,
    out: Seq<Lit>,
    cache: Set<(u32, u32)>,
    out2: Seq<Lit>,
    cache2: Set<(u32, u32)>,
    e: int,
)
    requires
        covered(edges, ctx, out, cache, e),
        forall|lit: Lit| out.contains(lit) ==> #[trigger] out2.contains(lit),
        cache.subset_of(cache2),
    ensures
        covered(edges, ctx, out2, cache2, e),
{
}

proof fn lemma_explained_grow(
    edges: Seq<MergeEdge>,
    ctx: Context,
    out: Seq<Lit>,
    cache: Set<(u32, u32)>,
    out2: Seq<Lit>,
    cache2: Set<(u32, u32)>,
    x: int,
    y: int,
)
    requires
        explained(edges, ctx, out, cache, x, y),
        forall|lit: Lit| out.contains(lit) ==> #[trigger] out2.contains(lit),
        cache.subset_of(cache2),
    ensures
        explained(edges, ctx, out2, cache2, x, y),
{
    let f = coverage(edges, ctx, out, cache);
    let g = coverage(edges, ctx, out2, cache2);
    assert forall|k: int|
        0 <= k <= edges.len() && #[trigger] connected(edges, every(), k, x, y) implies connected(
        edges,
        g,
        k,
        x,
        y,
    ) by {
        assert forall|e: int| 0 <= e < k && #[trigger] f(e) implies g(e) by {
            lemma_covered_grow(edges, ctx, out, cache, out2, cache2, e);
        }
        lemma_connected_monotone(edges, f, g, k, k, x, y);
    }
}

/// A path along covered edges explains its ends.
proof fn lemma_path_explains(
    edges: Seq<MergeEdge>,
    ctx: Context,
    out: Seq<Lit>,
    cache: Set<(u32, u32)>,
    es: Seq<int>,
    x: int,
    y: int,
)
    requires
        forest(edges),
        path_between(edges, es, x, y),
        forall|i: int| 0 <= i < es.len() ==> covered(edges, ctx, out, cache, #[trigger] es[i]),
    ensures
        explained(edges, ctx, out, cache, x, y),
        explained(edges, ctx, out, cache, y, x),
{
    let f = coverage(edges, ctx, out, cache);
    let vs = choose|vs: Seq<int>| #[trigger] path(edges, vs, es) && vs[0] == x && vs.last() == y;
    assert forall|k: int|
        0 <= k <= edges.len() && (connected(edges, every(), k, x, y) || connected(
            edges,
            every(),
            k,
            y,
            x,
        )) implies #[trigger] connected(edges, f, k, x, y) && connected(edges, f, k, y, x) by {
        lemma_connected_equivalence(edges, every(), k);
        lemma_path_within(edges, vs, es, k, edges.len() as int);
        assert forall|i: int| 0 <= i < es.len() implies (#[trigger] es[i]) < k && f(es[i]) by {}
        lemma_path_connects(edges, f, k, vs, es);
        lemma_connected_equivalence(edges, f, k);
    }
    assert forall|k: int|
        0 <= k <= edges.len() && #[trigger] connected(edges, every(), k, x, y) implies connected(
        edges,
        f,
        k,
        x,
        y,
    ) by {
        assert(connected(edges, f, k, x, y));
    }
    assert forall|k: int|
        0 <= k <= edges.len() && #[trigger] connected(edges, every(), k, y, x) implies connected(
        edges,
        f,
        k,
        y,
        x,
    ) by {
        assert(connected(edges, f, k, x, y));
    }
}

/// Terms connected by covered edges are equal wherever the collected literals hold.
proof fn lemma_coverage_sound(
    c: Core,
    ctx: Context,
    out: Seq<Lit>,
    cache: Set<(u32, u32)>,
    m: Interp,
    k: int,
    x: int,
    y: int,
)
    requires
        ctx.ok(),
        c.ok(ctx),
        all_explained(c.edges, ctx, out, cache, Set::empty()),
        0 <= k <= c.edges.len(),
        connected(c.edges, coverage(c.edges, ctx, out, cache), k, x, y),
        forall|i: int| 0 <= i < out.len() ==> #[trigger] ctx.equal_in(m, out[i]),
    ensures
        value(ctx.terms, m, x) == value(ctx.terms, m, y),
    decreases k,
{
    let f = coverage(c.edges, ctx, out, cache);
    if k > 0 {
        if connected(c.edges, f, k - 1, x, y) {
            lemma_coverage_sound(c, ctx, out, cache, m, k - 1, x, y);
        } else {
            let e = k - 1;
            let l = c.edges[e].lhs.0 as int;
            let r = c.edges[e].rhs.0 as int;
            assert(f(e));
            assert(c.justified(ctx, e));
            assert(value(ctx.terms, m, l) == value(ctx.terms, m, r)) by {
                match c.edges[e].reason {
                    MergeReason::InputEq { reason_lit } => {
                        let i = choose|i: int| 0 <= i < out.len() && out[i] == reason_lit;
                        assert(ctx.equal_in(m, out[i]));
                    },
                    MergeReason::Congruence { left_parent, right_parent } => {
                        assert forall|i: int| 0 <= i < ctx.terms[l].args.len() implies value(
                            ctx.terms,
                            m,
                            #[trigger] ctx.terms[l].args[i],
                        ) == value(ctx.terms, m, ctx.terms[r].args[i]) by {
                            let a = ctx.terms[l].args[i];
                            let b = ctx.terms[r].args[i];
                            assert(connected(c.edges, every(), e, a, b));
                            if a != b {
                                assert(cache.contains(pair_of(a, b)));
                                lemma_connected_equivalence(c.edges, every(), e);
                                let p = pair_of(a, b);
                                assert(explained(
                                    c.edges,
                                    ctx,
                                    out,
                                    cache,
                                    p.0 as int,
                                    p.1 as int,
                                ));
                                assert(connected(c.edges, every(), e, b, a));
                                assert(connected(c.edges, f, e, p.0 as int, p.1 as int));
                                lemma_coverage_sound(
                                    c,
                                    ctx,
                                    out,
                                    cache,
                                    m,
                                    e,
                                    p.0 as int,
                                    p.1 as int,
                                );
                            }
                        }
                        lemma_value_congruence(ctx.terms, m, l, r);
                    },
                }
            }
            if connected(c.edges, f, k - 1, x, l) && connected(c.edges, f, k - 1, r, y) {
                lemma_coverage_sound(c, ctx, out, cache, m, k - 1, x, l);
                lemma_coverage_sound(c, ctx, out, cache, m, k - 1, r, y);
            } else {
                assert(connected(c.edges, f, k - 1, x, r));
                assert(connected(c.edges, f, k - 1, l, y));
                lemma_coverage_sound(c, ctx, out, cache, m, k - 1, x, r);
                lemma_coverage_sound(c, ctx, out, cache, m, k - 1, l, y);
            }
        }
    }
}

impl SearchState {
    /// Explains why `lhs == rhs` currently holds as a list of input literals.
    pub fn explain_equality(
        &mut self,
        registry: &Registry,
        lhs: TermId,
        rhs: TermId,
        out: &mut Vec<Lit>,
    )
        requires
            old(self).wf(),
            old(self).matches(registry),
            lhs.0 < old(self).ctx@.terms.len(),
            rhs.0 < old(self).ctx@.terms.len(),
            old(self).classes.state().same(lhs.0 as int, rhs.0 as int),
        ensures
            final(self).wf(),
            *final(self) == (SearchState {
                graph: final(self).graph,
                explain_cache: final(self).explain_cache,
                ..*old(self)
            }),
            final(self).kernel() == old(self).kernel(),
            old(self).grows_to(final(self)),
            premises(old(self).kernel(), old(self).ctx@, final(out)@),
            implies_equal(old(self).ctx@, final(out)@, lhs.0 as int, rhs.0 as int),
    {
        out.clear();
        pairs_clear(&mut self.explain_cache);
        let ghost ctx = self.ctx@;
        let ghost n = self.graph.list().len() as int;
        proof {
            old(self).lemma_scratch(self);
            assert(connected(self.kernel().edges, every(), n, lhs.0 as int, rhs.0 as int));
        }
        self.collect_equality_explanation(registry, lhs, rhs, out, Ghost(n), Ghost(Set::empty()));
        proof {
            let c = self.kernel();
            let cache = pair_members(self.explain_cache);
            assert forall|m: Interp|
                (forall|i: int|
                    0 <= i < out@.len() ==> #[trigger] ctx.equal_in(m, out@[i])) implies #[trigger] value(
                ctx.terms,
                m,
                lhs.0 as int,
            ) == value(ctx.terms, m, rhs.0 as int) by {
                if lhs != rhs {
                    let x = lhs.0 as int;
                    let y = rhs.0 as int;
                    let p = pair_of(x, y);
                    assert(cache.contains(p));
                    assert(explained(c.edges, ctx, out@, cache, p.0 as int, p.1 as int));
                    lemma_connected_equivalence(c.edges, every(), n);
                    assert(connected(c.edges, every(), n, y, x));
                    assert(connected(
                        c.edges,
                        coverage(c.edges, ctx, out@, cache),
                        n,
                        p.0 as int,
                        p.1 as int,
                    ));
                    lemma_coverage_sound(c, ctx, out@, cache, m, n, p.0 as int, p.1 as int);
                }
            }
            old(self).lemma_scratch(self);
        }
    }

    /// Recursively appends one equality explanation without discarding already
    /// collected premises from the caller.
    fn collect_equality_explanation(
        &mut self,
        registry: &Registry,
        lhs: TermId,
        rhs: TermId,
        out: &mut Vec<Lit>,
        Ghost(k): Ghost<int>,
        Ghost(open): Ghost<Set<(u32, u32)>>,
    )
        requires
            old(self).wf(),
            old(self).matches(registry),
            lhs.0 < old(self).ctx@.terms.len(),
            rhs.0 < old(self).ctx@.terms.len(),
            0 <= k <= old(self).graph.list().len(),
            connected(old(self).graph.list(), every(), k, lhs.0 as int, rhs.0 as int),
            premises(old(self).kernel(), old(self).ctx@, old(out)@),
            all_explained(
                old(self).graph.list(),
                old(self).ctx@,
                old(out)@,
                pair_members(old(self).explain_cache),
                open,
            ),
        ensures
            final(self).wf(),
            *final(self) == (SearchState {
                graph: final(self).graph,
                explain_cache: final(self).explain_cache,
                ..*old(self)
            }),
            final(self).graph.list() == old(self).graph.list(),
            final(self).graph.count() == old(self).graph.count(),
            premises(old(self).kernel(), old(self).ctx@, final(out)@),
            forall|lit: Lit| old(out)@.contains(lit) ==> #[trigger] final(out)@.contains(lit),
            pair_members(old(self).explain_cache).subset_of(
                pair_members(final(self).explain_cache),
            ),
            lhs != rhs ==> pair_members(final(self).explain_cache).contains(
                pair_of(lhs.0 as int, rhs.0 as int),
            ),
            all_explained(
                old(self).graph.list(),
                old(self).ctx@,
                final(out)@,
                pair_members(final(self).explain_cache),
                open,
            ),
        decreases k, 0int,
    {
        if lhs == rhs {
            return;
        }
        let ghost ctx = self.ctx@;
        let ghost edges = self.graph.list();
        let ghost n = edges.len() as int;
        let ghost x = lhs.0 as int;
        let ghost y = rhs.0 as int;
        let key = if lhs.0 <= rhs.0 {
            (lhs.0, rhs.0)
        } else {
            (rhs.0, lhs.0)
        };
        let ghost cache0 = pair_members(self.explain_cache);
        let added = pairs_insert(&mut self.explain_cache, key);
        proof {
            old(self).lemma_scratch(self);
        }
        if !added {
            proof {
                assert(pair_members(self.explain_cache) =~= cache0);
            }
            return;
        }
        let ghost open1 = open.insert(key);
        proof {
            lemma_connected_monotone(edges, every(), every(), k, n, x, y);
            assert(all_explained(edges, ctx, out@, pair_members(self.explain_cache), open1)) by {
                let cache1 = pair_members(self.explain_cache);
                assert forall|p: (u32, u32)| #[trigger]
                    cache1.contains(p) && !open1.contains(p) implies explained(
                    edges,
                    ctx,
                    out@,
                    cache1,
                    p.0 as int,
                    p.1 as int,
                ) by {
                    assert(cache0.contains(p));
                    lemma_explained_grow(
                        edges,
                        ctx,
                        out@,
                        cache0,
                        out@,
                        cache1,
                        p.0 as int,
                        p.1 as int,
                    );
                }
            }
        }
        let path_edges = match self.graph.find_equality_explanation_path(lhs, rhs) {
            Some(path_edges) => path_edges,
            None => {
                return;
            },
        };
        let ghost es = as_ints(path_edges@);
        proof {
            old(self).lemma_scratch(self);
            lemma_connected_equivalence(edges, every(), k);
            let vs = choose|vs: Seq<int>| #[trigger]
                path(edges, vs, es) && vs[0] == y && vs.last() == x;
            assert forall|i: int| 0 <= i < es.len() implies (#[trigger] es[i]) < n by {}
            lemma_path_within(edges, vs, es, k, n);
        }
        let mut i: usize = path_edges.len();
        while i > 0
            invariant
                0 <= i <= path_edges.len(),
                es == as_ints(path_edges@),
                self.wf(),
                self.matches(registry),
                ctx == self.ctx@,
                edges == self.graph.list(),
                n == edges.len(),
                0 <= k <= n,
                *self == (SearchState {
                    graph: self.graph,
                    explain_cache: self.explain_cache,
                    ..*old(self)
                }),
                self.graph.count() == old(self).graph.count(),
                self.kernel() == old(self).kernel(),
                premises(self.kernel(), ctx, out@),
                forall|lit: Lit| old(out)@.contains(lit) ==> #[trigger] out@.contains(lit),
                cache0.subset_of(pair_members(self.explain_cache)),
                pair_members(self.explain_cache).contains(key),
                forall|j: int| 0 <= j < es.len() ==> 0 <= (#[trigger] es[j]) < k,
                forall|j: int|
                    i <= j < es.len() ==> covered(
                        edges,
                        ctx,
                        out@,
                        pair_members(self.explain_cache),
                        #[trigger] es[j],
                    ),
                all_explained(edges, ctx, out@, pair_members(self.explain_cache), open1),
            decreases i,
        {
            i -= 1;
            let ghost out1 = out@;
            let ghost cache1 = pair_members(self.explain_cache);
            let ghost e = es[i as int];
            let edge = self.graph.edge(path_edges[i]);
            proof {
                assert(e == path_edges[i as int]);
                assert(self.kernel().justified(ctx, e));
            }
            match edge.reason {
                MergeReason::InputEq { reason_lit } => {
                    out.push(reason_lit);
                    proof {
                        assert(out@[out1.len() as int] == reason_lit);
                        assert forall|lit: Lit| out1.contains(lit) implies #[trigger] out@.contains(
                            lit,
                        ) by {
                            let j = choose|j: int| 0 <= j < out1.len() && out1[j] == lit;
                            assert(out@[j] == lit);
                        }
                        assert forall|j: int| 0 <= j < out@.len() implies {
                            let lit = #[trigger] out@[j];
                            self.kernel().lits.contains(lit) && ctx.bound(lit.var) && !lit.negated
                        } by {
                            if j < out1.len() {
                                assert(out@[j] == out1[j]);
                            }
                        }
                    }
                },
                MergeReason::Congruence { left_parent, right_parent } => {
                    self.collect_argument_explanations(
                        registry,
                        left_parent,
                        right_parent,
                        out,
                        Ghost(e),
                        Ghost(open1),
                    );
                },
            }
            proof {
                let cache2 = pair_members(self.explain_cache);
                assert(covered(edges, ctx, out@, cache2, e));
                assert forall|j: int| i <= j < es.len() implies covered(
                    edges,
                    ctx,
                    out@,
                    cache2,
                    #[trigger] es[j],
                ) by {
                    if j > i {
                        lemma_covered_grow(edges, ctx, out1, cache1, out@, cache2, es[j]);
                    }
                }
                assert(all_explained(edges, ctx, out@, cache2, open1)) by {
                    assert forall|p: (u32, u32)| #[trigger]
                        cache2.contains(p) && !open1.contains(p) implies explained(
                        edges,
                        ctx,
                        out@,
                        cache2,
                        p.0 as int,
                        p.1 as int,
                    ) by {
                        if cache1.contains(p) {
                            lemma_explained_grow(
                                edges,
                                ctx,
                                out1,
                                cache1,
                                out@,
                                cache2,
                                p.0 as int,
                                p.1 as int,
                            );
                        }
                    }
                }
            }
        }
        proof {
            let cache2 = pair_members(self.explain_cache);
            lemma_path_explains(edges, ctx, out@, cache2, es, y, x);
            assert forall|p: (u32, u32)| #[trigger]
                cache2.contains(p) && !open.contains(p) implies explained(
                edges,
                ctx,
                out@,
                cache2,
                p.0 as int,
                p.1 as int,
            ) by {
                if p != key {
                    assert(!open1.contains(p));
                }
            }
        }
    }

    /// Appends explanations of the pairwise equalities between the arguments of two applications.
    fn collect_argument_explanations(
        &mut self,
        registry: &Registry,
        left_parent: TermId,
        right_parent: TermId,
        out: &mut Vec<Lit>,
        Ghost(e): Ghost<int>,
        Ghost(open): Ghost<Set<(u32, u32)>>,
    )
        requires
            old(self).wf(),
            old(self).matches(registry),
            left_parent.0 < old(self).ctx@.terms.len(),
            right_parent.0 < old(self).ctx@.terms.len(),
            0 <= e <= old(self).graph.list().len(),
            old(self).ctx@.terms[left_parent.0 as int].args.len() == old(self).ctx@.terms[right_parent.0 as int].args.len(),
            forall|j: int|
                0 <= j < old(self).ctx@.terms[left_parent.0 as int].args.len() ==> connected(
                    old(self).graph.list(),
                    every(),
                    e,
                    #[trigger] old(self).ctx@.terms[left_parent.0 as int].args[j],
                    old(self).ctx@.terms[right_parent.0 as int].args[j],
                ),
            premises(old(self).kernel(), old(self).ctx@, old(out)@),
            all_explained(
                old(self).graph.list(),
                old(self).ctx@,
                old(out)@,
                pair_members(old(self).explain_cache),
                open,
            ),
        ensures
            final(self).wf(),
            *final(self) == (SearchState {
                graph: final(self).graph,
                explain_cache: final(self).explain_cache,
                ..*old(self)
            }),
            final(self).graph.list() == old(self).graph.list(),
            final(self).graph.count() == old(self).graph.count(),
            premises(old(self).kernel(), old(self).ctx@, final(out)@),
            forall|lit: Lit| old(out)@.contains(lit) ==> #[trigger] final(out)@.contains(lit),
            pair_members(old(self).explain_cache).subset_of(
                pair_members(final(self).explain_cache),
            ),
            forall|j: int|
                0 <= j < old(self).ctx@.terms[left_parent.0 as int].args.len() ==> (#[trigger] old(self).ctx@.terms[left_parent.0 as int].args[j]) == old(self).ctx@.terms[right_parent.0 as int].args[j] || pair_members(
                    final(self).explain_cache,
                ).contains(
                    pair_of(
                        old(self).ctx@.terms[left_parent.0 as int].args[j],
                        old(self).ctx@.terms[right_parent.0 as int].args[j],
                    ),
                ),
            all_explained(
                old(self).graph.list(),
                old(self).ctx@,
                final(out)@,
                pair_members(final(self).explain_cache),
                open,
            ),
        decreases e, 1int,
    {
        let ghost ctx = self.ctx@;
        let ghost edges = self.graph.list();
        let ghost n = edges.len() as int;
        let ghost l = left_parent.0 as int;
        let ghost r = right_parent.0 as int;
        let ghost cache1 = pair_members(self.explain_cache);
        let left_args = registry.term_ref(left_parent).args;
        let right_args = registry.term_ref(right_parent).args;
        proof {
            assert(ctx.terms[l].args.len() == left_args@.len());
            assert(ctx.terms[r].args.len() == right_args@.len());
        }
        let mut a: usize = 0;
        while a < left_args.len()
            invariant
                0 <= a <= left_args.len(),
                left_args@.len() == right_args@.len(),
                ctx.terms[l].args.len() == left_args@.len(),
                ctx.terms[r].args.len() == left_args@.len(),
                0 <= l < ctx.terms.len(),
                0 <= r < ctx.terms.len(),
                forall|j: int|
                    0 <= j < left_args@.len() ==> (#[trigger] left_args@[j]).0
                        == ctx.terms[l].args[j],
                forall|j: int|
                    0 <= j < right_args@.len() ==> (#[trigger] right_args@[j]).0
                        == ctx.terms[r].args[j],
                self.wf(),
                self.matches(registry),
                ctx == self.ctx@,
                edges == self.graph.list(),
                n == edges.len(),
                0 <= e <= n,
                forall|j: int|
                    0 <= j < ctx.terms[l].args.len() ==> connected(
                        edges,
                        every(),
                        e,
                        #[trigger] ctx.terms[l].args[j],
                        ctx.terms[r].args[j],
                    ),
                *self == (SearchState {
                    graph: self.graph,
                    explain_cache: self.explain_cache,
                    ..*old(self)
                }),
                self.graph.count() == old(self).graph.count(),
                self.kernel() == old(self).kernel(),
                premises(self.kernel(), ctx, out@),
                forall|lit: Lit| old(out)@.contains(lit) ==> #[trigger] out@.contains(lit),
                cache1.subset_of(pair_members(self.explain_cache)),
                forall|j: int|
                    0 <= j < a ==> (#[trigger] ctx.terms[l].args[j]) == ctx.terms[r].args[j]
                        || pair_members(self.explain_cache).contains(
                        pair_of(ctx.terms[l].args[j], ctx.terms[r].args[j]),
                    ),
                all_explained(edges, ctx, out@, pair_members(self.explain_cache), open),
            decreases left_args.len() - a,
        {
            let left_arg = left_args[a];
            let right_arg = right_args[a];
            let ghost s1 = *self;
            proof {
                let p = ctx.terms[l].args[a as int];
                let q = ctx.terms[r].args[a as int];
                assert(left_arg.0 == p && right_arg.0 == q);
                assert(0 <= p < l && 0 <= q < r);
                lemma_connected_monotone(edges, every(), every(), e, n, p, q);
                assert(connected(self.kernel().edges, every(), n, p, q)
                    <==> self.classes.state().same(p, q));
            }
            if self.find(left_arg) == self.find(right_arg) {
                self.collect_equality_explanation(
                    registry,
                    left_arg,
                    right_arg,
                    out,
                    Ghost(e),
                    Ghost(open),
                );
            }
            proof {
                s1.lemma_scratch(self);
            }
            a += 1;
        }
    }

    /// Explains one disequality conflict as its supporting input literals.
    pub fn explain_conflict(
        &mut self,
        registry: &Registry,
        diseq: DisequalityEntry,
        out: &mut Vec<Lit>,
    )
        requires
            old(self).wf(),
            old(self).matches(registry),
            diseq.lhs.0 < old(self).ctx@.terms.len(),
            diseq.rhs.0 < old(self).ctx@.terms.len(),
            old(self).classes.state().same(diseq.lhs.0 as int, diseq.rhs.0 as int),
        ensures
            final(self).wf(),
            *final(self) == (SearchState {
                graph: final(self).graph,
                explain_cache: final(self).explain_cache,
                ..*old(self)
            }),
            final(self).kernel() == old(self).kernel(),
            old(self).grows_to(final(self)),
            final(out)@.len() >= 1,
            final(out)@.last() == diseq.reason_lit,
            premises(old(self).kernel(), old(self).ctx@, final(out)@.drop_last()),
            implies_equal(
                old(self).ctx@,
                final(out)@.drop_last(),
                diseq.lhs.0 as int,
                diseq.rhs.0 as int,
            ),
    {
        self.explain_equality(registry, diseq.lhs, diseq.rhs, out);
        let ghost support = out@;
        out.push(diseq.reason_lit);
        proof {
            assert(out@.drop_last() =~= support);
        }
    }
}

} // verus!
