//! The graph of merge reasons behind the equality classes, and paths in it.

use crate::euf::ids::TermId;
use crate::sat::Lit;
use vstd::prelude::*;

verus! {

/// Reason why two terms became equal.
#[derive(Debug, Clone, Copy, PartialEq, Eq, Structural)]
pub enum MergeReason {
    /// One asserted equality literal.
    InputEq {
        /// The asserted equality literal.
        reason_lit: Lit,
    },
    /// Congruence closure of two application parents.
    Congruence {
        /// Left parent application.
        left_parent: TermId,
        /// Right parent application.
        right_parent: TermId,
    },
}

/// Handle for one directed orientation of a merge edge, or none.
///
/// - `lhs -> rhs` of edge `e` is encoded as `e * 2`.
/// - `rhs -> lhs` of edge `e` is encoded as `e * 2 + 1`.
/// - `u32::MAX` is reserved as the null adjacency-list terminator.
#[derive(Debug, Clone, Copy, PartialEq, Eq, Structural)]
pub struct DirectedEdge(u32);

impl DirectedEdge {
    /// Returns the sentinel for the end of one adjacency list.
    pub fn none() -> (directed: Self)
        ensures
            !directed.live(),
    {
        DirectedEdge(0xFFFF_FFFF)
    }

    /// The encoded number.
    pub closed spec fn raw(self) -> int {
        self.0 as int
    }

    /// The handle is no sentinel.
    pub open spec fn live(self) -> bool {
        self.raw() != 0xFFFF_FFFF
    }

    /// The merge edge named by a live handle.
    pub open spec fn edge(self) -> int {
        self.raw() / 2
    }

    /// The handle names the orientation from right to left.
    pub open spec fn backward(self) -> bool {
        self.raw() % 2 == 1
    }

    /// Creates one handle from an edge index and orientation bit.
    pub fn from_edge_index_and_direction(edge_index: usize, rhs_to_lhs: bool) -> (directed: Self)
        requires
            edge_index < 0x7FFF_FFFF,
        ensures
            directed.live(),
            directed.edge() == edge_index,
            directed.backward() == rhs_to_lhs,
            directed.raw() == edge_index * 2 + if rhs_to_lhs {
                1int
            } else {
                0
            },
    {
        if rhs_to_lhs {
            DirectedEdge((edge_index as u32) * 2 + 1)
        } else {
            DirectedEdge((edge_index as u32) * 2)
        }
    }

    /// Creates the `lhs -> rhs` orientation for one merge edge.
    pub fn lhs_to_rhs(edge_index: usize) -> (directed: Self)
        requires
            edge_index < 0x7FFF_FFFF,
        ensures
            directed.live(),
            directed.edge() == edge_index,
            !directed.backward(),
            directed.raw() == edge_index * 2,
    {
        Self::from_edge_index_and_direction(edge_index, false)
    }

    /// Creates the `rhs -> lhs` orientation for one merge edge.
    pub fn rhs_to_lhs(edge_index: usize) -> (directed: Self)
        requires
            edge_index < 0x7FFF_FFFF,
        ensures
            directed.live(),
            directed.edge() == edge_index,
            directed.backward(),
            directed.raw() == edge_index * 2 + 1,
    {
        Self::from_edge_index_and_direction(edge_index, true)
    }

    /// Returns the zero-based merge edge index named by this orientation.
    pub fn edge_index(self) -> (i: usize)
        requires
            self.live(),
        ensures
            i == self.edge(),
    {
        (self.0 / 2) as usize
    }

    /// Returns whether this orientation is `rhs -> lhs`.
    pub fn is_rhs_to_lhs(self) -> (backward: bool)
        requires
            self.live(),
        ensures
            backward == self.backward(),
    {
        self.0 % 2 == 1
    }

    /// Returns whether this is the sentinel value.
    pub fn is_none(self) -> (none: bool)
        ensures
            none == !self.live(),
    {
        self.0 == 0xFFFF_FFFF
    }
}

/// One active edge in the equality proof graph.
#[derive(Debug, Clone, Copy, PartialEq, Eq, Structural)]
pub struct MergeEdge {
    /// Left endpoint.
    pub lhs: TermId,
    /// Right endpoint.
    pub rhs: TermId,
    /// Previous adjacency-list head for the `lhs -> rhs` orientation.
    pub next_lhs: DirectedEdge,
    /// Previous adjacency-list head for the `rhs -> lhs` orientation.
    pub next_rhs: DirectedEdge,
    /// Justification for this equality edge.
    pub reason: MergeReason,
}

impl MergeEdge {
    /// Returns the endpoint opposite `term` on this undirected merge edge.
    pub fn other_endpoint(self, term: TermId) -> (other: TermId)
        requires
            self.lhs == term || self.rhs == term,
        ensures
            other == if self.lhs == term {
                self.rhs
            } else {
                self.lhs
            },
    {
        if self.lhs == term {
            return self.rhs;
        }
        self.lhs
    }

    /// The endpoint that `directed` leads to.
    pub open spec fn spec_target(self, directed: DirectedEdge) -> TermId {
        if directed.backward() {
            self.lhs
        } else {
            self.rhs
        }
    }

    /// The endpoint that `directed` starts from.
    pub open spec fn spec_source(self, directed: DirectedEdge) -> TermId {
        if directed.backward() {
            self.rhs
        } else {
            self.lhs
        }
    }

    /// Returns the target endpoint for one directed orientation of this edge.
    pub fn target(self, directed: DirectedEdge) -> (term: TermId)
        requires
            directed.live(),
        ensures
            term == self.spec_target(directed),
    {
        if directed.is_rhs_to_lhs() {
            return self.lhs;
        }
        self.rhs
    }

    /// Returns the next edge in the source endpoint adjacency list.
    pub fn next(self, directed: DirectedEdge) -> (next: DirectedEdge)
        requires
            directed.live(),
        ensures
            next == if directed.backward() {
                self.next_rhs
            } else {
                self.next_lhs
            },
    {
        if directed.is_rhs_to_lhs() {
            return self.next_rhs;
        }
        self.next_lhs
    }
}

/// `x` and `y` are connected by those of the first `k` edges that `f` selects.
pub open spec fn connected(
    edges: Seq<MergeEdge>,
    f: spec_fn(int) -> bool,
    k: int,
    x: int,
    y: int,
) -> bool
    decreases k,
{
    if k <= 0 {
        x == y
    } else {
        let l = edges[k - 1].lhs.0 as int;
        let r = edges[k - 1].rhs.0 as int;
        ||| connected(edges, f, k - 1, x, y)
        ||| f(k - 1) && connected(edges, f, k - 1, x, l) && connected(edges, f, k - 1, r, y)
        ||| f(k - 1) && connected(edges, f, k - 1, x, r) && connected(edges, f, k - 1, l, y)
    }
}

/// Selects every edge.
pub open spec fn every() -> spec_fn(int) -> bool {
    |e: int| true
}

/// Connection is an equivalence.
pub proof fn lemma_connected_equivalence(edges: Seq<MergeEdge>, f: spec_fn(int) -> bool, k: int)
    ensures
        forall|x: int| #[trigger] connected(edges, f, k, x, x),
        forall|x: int, y: int| #[trigger]
            connected(edges, f, k, x, y) ==> connected(edges, f, k, y, x),
        forall|x: int, y: int, z: int| #[trigger]
            connected(edges, f, k, x, y) && #[trigger] connected(edges, f, k, y, z) ==> connected(
                edges,
                f,
                k,
                x,
                z,
            ),
    decreases k,
{
    if k > 0 {
        lemma_connected_equivalence(edges, f, k - 1);
        let l = edges[k - 1].lhs.0 as int;
        let r = edges[k - 1].rhs.0 as int;
        assert forall|x: int| #[trigger] connected(edges, f, k, x, x) by {
            assert(connected(edges, f, k - 1, x, x));
        }
        assert forall|x: int, y: int| #[trigger] connected(edges, f, k, x, y) implies connected(
            edges,
            f,
            k,
            y,
            x,
        ) by {
            if connected(edges, f, k - 1, x, y) {
                assert(connected(edges, f, k - 1, y, x));
            } else if connected(edges, f, k - 1, x, l) && connected(edges, f, k - 1, r, y) {
                assert(connected(edges, f, k - 1, y, r));
                assert(connected(edges, f, k - 1, l, x));
            } else {
                assert(connected(edges, f, k - 1, x, r));
                assert(connected(edges, f, k - 1, l, y));
                assert(connected(edges, f, k - 1, y, l));
                assert(connected(edges, f, k - 1, r, x));
            }
        }
        assert forall|x: int, y: int, z: int| #[trigger]
            connected(edges, f, k, x, y) && #[trigger] connected(edges, f, k, y, z) implies connected(
            edges,
            f,
            k,
            x,
            z,
        ) by {
            let xy = connected(edges, f, k - 1, x, y);
            let yz = connected(edges, f, k - 1, y, z);
            if xy && yz {
                assert(connected(edges, f, k - 1, x, z));
            } else if xy {
                if connected(edges, f, k - 1, y, l) {
                    assert(connected(edges, f, k - 1, x, l));
                }
                if connected(edges, f, k - 1, y, r) {
                    assert(connected(edges, f, k - 1, x, r));
                }
            } else if yz {
                if connected(edges, f, k - 1, r, y) {
                    assert(connected(edges, f, k - 1, r, z));
                }
                if connected(edges, f, k - 1, l, y) {
                    assert(connected(edges, f, k - 1, l, z));
                }
            } else {
                let x_l = connected(edges, f, k - 1, x, l) && connected(edges, f, k - 1, r, y);
                let y_l = connected(edges, f, k - 1, y, l) && connected(edges, f, k - 1, r, z);
                if x_l && y_l {
                } else if x_l {
                    assert(connected(edges, f, k - 1, l, z));
                    assert(connected(edges, f, k - 1, x, z));
                } else if y_l {
                    assert(connected(edges, f, k - 1, x, r));
                    assert(connected(edges, f, k - 1, x, z));
                }
            }
        }
    }
}

/// More edges and a wider selection connect more.
pub proof fn lemma_connected_monotone(
    edges: Seq<MergeEdge>,
    f: spec_fn(int) -> bool,
    g: spec_fn(int) -> bool,
    k: int,
    m: int,
    x: int,
    y: int,
)
    requires
        k <= m,
        connected(edges, f, k, x, y),
        forall|e: int| 0 <= e < k && #[trigger] f(e) ==> g(e),
    ensures
        connected(edges, g, m, x, y),
    decreases m,
{
    if m > 0 {
        if k < m {
            lemma_connected_monotone(edges, f, g, k, m - 1, x, y);
        } else {
            let l = edges[k - 1].lhs.0 as int;
            let r = edges[k - 1].rhs.0 as int;
            if connected(edges, f, k - 1, x, y) {
                lemma_connected_monotone(edges, f, g, k - 1, m - 1, x, y);
            } else if connected(edges, f, k - 1, x, l) && connected(edges, f, k - 1, r, y) {
                lemma_connected_monotone(edges, f, g, k - 1, m - 1, x, l);
                lemma_connected_monotone(edges, f, g, k - 1, m - 1, r, y);
            } else {
                lemma_connected_monotone(edges, f, g, k - 1, m - 1, x, r);
                lemma_connected_monotone(edges, f, g, k - 1, m - 1, l, y);
            }
        }
    }
}

/// Later edges do not change what the first `k` connect.
pub proof fn lemma_connected_prefix(
    edges: Seq<MergeEdge>,
    more: Seq<MergeEdge>,
    f: spec_fn(int) -> bool,
    k: int,
    x: int,
    y: int,
)
    requires
        k <= edges.len(),
        k <= more.len(),
        forall|e: int| 0 <= e < k ==> edges[e] == more[e],
    ensures
        connected(edges, f, k, x, y) == connected(more, f, k, x, y),
    decreases k,
{
    if k > 0 {
        let l = edges[k - 1].lhs.0 as int;
        let r = edges[k - 1].rhs.0 as int;
        assert(edges[k - 1] == more[k - 1]);
        lemma_connected_prefix(edges, more, f, k - 1, x, y);
        lemma_connected_prefix(edges, more, f, k - 1, x, l);
        lemma_connected_prefix(edges, more, f, k - 1, r, y);
        lemma_connected_prefix(edges, more, f, k - 1, x, r);
        lemma_connected_prefix(edges, more, f, k - 1, l, y);
    }
}

/// A selected edge connects its ends.
pub proof fn lemma_connected_edge(
    edges: Seq<MergeEdge>,
    f: spec_fn(int) -> bool,
    k: int,
    e: int,
)
    requires
        0 <= e < k,
        f(e),
    ensures
        connected(edges, f, k, edges[e].lhs.0 as int, edges[e].rhs.0 as int),
        connected(edges, f, k, edges[e].rhs.0 as int, edges[e].lhs.0 as int),
{
    let l = edges[e].lhs.0 as int;
    let r = edges[e].rhs.0 as int;
    lemma_connected_equivalence(edges, f, e);
    assert(connected(edges, f, e, l, l) && connected(edges, f, e, r, r));
    assert(connected(edges, f, e + 1, l, r));
    lemma_connected_monotone(edges, f, f, e + 1, k, l, r);
    lemma_connected_equivalence(edges, f, k);
}

/// A set of terms that holds both or no end of each of the first `k` edges holds everything that
/// they connect to its members.
pub proof fn lemma_connected_closed(
    edges: Seq<MergeEdge>,
    set: spec_fn(int) -> bool,
    k: int,
    x: int,
    y: int,
)
    requires
        connected(edges, every(), k, x, y),
        set(x),
        forall|e: int|
            0 <= e < k ==> set((#[trigger] edges[e]).lhs.0 as int) == set(edges[e].rhs.0 as int),
    ensures
        set(y),
    decreases k,
{
    if k > 0 {
        let l = edges[k - 1].lhs.0 as int;
        let r = edges[k - 1].rhs.0 as int;
        if connected(edges, every(), k - 1, x, y) {
            lemma_connected_closed(edges, set, k - 1, x, y);
        } else if connected(edges, every(), k - 1, x, l) && connected(edges, every(), k - 1, r, y) {
            lemma_connected_closed(edges, set, k - 1, x, l);
            lemma_connected_closed(edges, set, k - 1, r, y);
        } else {
            lemma_connected_closed(edges, set, k - 1, x, r);
            lemma_connected_closed(edges, set, k - 1, l, y);
        }
    }
}

/// Every edge joins terms that the earlier ones do not connect.
pub open spec fn forest(edges: Seq<MergeEdge>) -> bool {
    forall|e: int|
        0 <= e < edges.len() ==> !connected(
            edges,
            every(),
            e,
            (#[trigger] edges[e]).lhs.0 as int,
            edges[e].rhs.0 as int,
        )
}

/// The indices as mathematical integers.
pub open spec fn as_ints(list: Seq<usize>) -> Seq<int> {
    list.map_values(|e: usize| e as int)
}

/// `es` are the edges along the pairwise different terms `vs`.
pub open spec fn path(edges: Seq<MergeEdge>, vs: Seq<int>, es: Seq<int>) -> bool {
    &&& vs.len() == es.len() + 1
    &&& vs.no_duplicates()
    &&& forall|i: int|
        0 <= i < es.len() ==> 0 <= (#[trigger] es[i]) < edges.len() && joins(
            edges[es[i]],
            vs[i],
            vs[i + 1],
        )
}

/// `es` are the edges along a path from `x` to `y`.
pub open spec fn path_between(edges: Seq<MergeEdge>, es: Seq<int>, x: int, y: int) -> bool {
    exists|vs: Seq<int>| #[trigger] path(edges, vs, es) && vs[0] == x && vs.last() == y
}

/// The edge has the ends `x` and `y`.
pub open spec fn joins(edge: MergeEdge, x: int, y: int) -> bool {
    ||| edge.lhs.0 == x && edge.rhs.0 == y
    ||| edge.lhs.0 == y && edge.rhs.0 == x
}

/// A path along selected edges connects its ends.
pub proof fn lemma_path_connects(
    edges: Seq<MergeEdge>,
    f: spec_fn(int) -> bool,
    k: int,
    vs: Seq<int>,
    es: Seq<int>,
)
    requires
        path(edges, vs, es),
        forall|i: int| 0 <= i < es.len() ==> (#[trigger] es[i]) < k && f(es[i]),
    ensures
        connected(edges, f, k, vs[0], vs.last()),
    decreases es.len(),
{
    lemma_connected_equivalence(edges, f, k);
    if es.len() == 0 {
        assert(vs.last() == vs[0]);
    } else {
        let vs1 = vs.drop_last();
        let es1 = es.drop_last();
        assert(path(edges, vs1, es1)) by {
            assert forall|i: int| 0 <= i < es1.len() implies 0 <= (#[trigger] es1[i]) < edges.len()
                && joins(edges[es1[i]], vs1[i], vs1[i + 1]) by {
                assert(es1[i] == es[i]);
            }
        }
        assert forall|i: int| 0 <= i < es1.len() implies (#[trigger] es1[i]) < k && f(es1[i]) by {
            assert(es1[i] == es[i]);
        }
        lemma_path_connects(edges, f, k, vs1, es1);
        let e = es.last();
        assert(es[es.len() - 1] == e);
        lemma_connected_edge(edges, f, k, e);
        assert(connected(edges, f, k, vs[0], vs1.last()));
        assert(vs1.last() == vs[es.len() - 1]);
        assert(connected(edges, f, k, vs1.last(), vs.last()));
    }
}

/// In a forest, a path between terms that the first `k` edges connect uses these edges only.
pub proof fn lemma_path_within(
    edges: Seq<MergeEdge>,
    vs: Seq<int>,
    es: Seq<int>,
    k: int,
    m: int,
)
    requires
        forest(edges),
        path(edges, vs, es),
        0 <= k <= m <= edges.len(),
        forall|i: int| 0 <= i < es.len() ==> (#[trigger] es[i]) < m,
        connected(edges, every(), k, vs[0], vs.last()),
    ensures
        forall|i: int| 0 <= i < es.len() ==> (#[trigger] es[i]) < k,
    decreases m,
{
    if k < m {
        if exists|i: int| 0 <= i < es.len() && #[trigger] es[i] == m - 1 {
            let i = choose|i: int| 0 <= i < es.len() && #[trigger] es[i] == m - 1;
            assert forall|j: int| 0 <= j < es.len() && j != i implies #[trigger] es[j] < m - 1 by {
                if es[j] == m - 1 {
                    assert(joins(edges[m - 1], vs[i], vs[i + 1]));
                    assert(joins(edges[m - 1], vs[j], vs[j + 1]));
                    if j < i {
                        assert(vs[i + 1] == vs[j] || vs[i + 1] == vs[j + 1]);
                    } else {
                        assert(vs[j + 1] == vs[i] || vs[j + 1] == vs[i + 1]);
                    }
                }
            }
            let va = vs.take(i + 1);
            let ea = es.take(i);
            let vb = vs.skip(i + 1);
            let eb = es.skip(i + 1);
            assert(path(edges, va, ea)) by {
                assert forall|j: int| 0 <= j < ea.len() implies 0 <= (#[trigger] ea[j])
                    < edges.len() && joins(edges[ea[j]], va[j], va[j + 1]) by {
                    assert(ea[j] == es[j]);
                }
            }
            assert(path(edges, vb, eb)) by {
                assert forall|j: int| 0 <= j < eb.len() implies 0 <= (#[trigger] eb[j])
                    < edges.len() && joins(edges[eb[j]], vb[j], vb[j + 1]) by {
                    assert(eb[j] == es[i + 1 + j]);
                }
            }
            assert forall|j: int| 0 <= j < ea.len() implies (#[trigger] ea[j]) < m - 1 && every()(
                ea[j],
            ) by {
                assert(ea[j] == es[j]);
            }
            assert forall|j: int| 0 <= j < eb.len() implies (#[trigger] eb[j]) < m - 1 && every()(
                eb[j],
            ) by {
                assert(eb[j] == es[i + 1 + j]);
            }
            lemma_path_connects(edges, every(), m - 1, va, ea);
            lemma_path_connects(edges, every(), m - 1, vb, eb);
            lemma_connected_monotone(edges, every(), every(), k, m - 1, vs[0], vs.last());
            lemma_connected_equivalence(edges, every(), m - 1);
            let u = vs[i];
            let v = vs[i + 1];
            assert(va.last() == u && vb[0] == v && vb.last() == vs.last());
            assert(connected(edges, every(), m - 1, u, vs[0]));
            assert(connected(edges, every(), m - 1, u, vs.last()));
            assert(connected(edges, every(), m - 1, vs.last(), v));
            assert(connected(edges, every(), m - 1, u, v));
            assert(connected(edges, every(), m - 1, v, u));
            assert(joins(edges[m - 1], u, v));
            assert(false);
        }
        assert forall|i: int| 0 <= i < es.len() implies (#[trigger] es[i]) < m - 1 by {}
        lemma_path_within(edges, vs, es, k, m - 1);
    }
}

/// The latest of the first `k` edges with an end at `t`, oriented away from `t`; the sentinel number
/// when there is none.
pub open spec fn last_out(edges: Seq<MergeEdge>, k: int, t: int) -> int
    decreases k,
{
    if k <= 0 {
        0xFFFF_FFFF
    } else if edges[k - 1].lhs.0 == t {
        2 * (k - 1)
    } else if edges[k - 1].rhs.0 == t {
        2 * (k - 1) + 1
    } else {
        last_out(edges, k - 1, t)
    }
}

proof fn lemma_last_out(edges: Seq<MergeEdge>, k: int, t: int)
    requires
        0 <= k <= edges.len(),
        edges.len() < 0x7FFF_FFFF,
    ensures
        last_out(edges, k, t) == 0xFFFF_FFFF || 0 <= last_out(edges, k, t) < 2 * k,
        last_out(edges, k, t) != 0xFFFF_FFFF ==> {
            let e = last_out(edges, k, t) / 2;
            if last_out(edges, k, t) % 2 == 1 {
                edges[e].rhs.0 == t
            } else {
                edges[e].lhs.0 == t
            }
        },
        forall|e: int|
            0 <= e < k && ((#[trigger] edges[e]).lhs.0 == t || edges[e].rhs.0 == t) ==> last_out(
                edges,
                k,
                t,
            ) != 0xFFFF_FFFF && e <= last_out(edges, k, t) / 2,
    decreases k,
{
    if k > 0 {
        lemma_last_out(edges, k - 1, t);
    }
}

proof fn lemma_last_out_prefix(edges: Seq<MergeEdge>, more: Seq<MergeEdge>, k: int, t: int)
    requires
        k <= edges.len(),
        k <= more.len(),
        forall|e: int| 0 <= e < k ==> edges[e] == more[e],
    ensures
        last_out(edges, k, t) == last_out(more, k, t),
    decreases k,
{
    if k > 0 {
        assert(edges[k - 1] == more[k - 1]);
        lemma_last_out_prefix(edges, more, k - 1, t);
    }
}

/// One visited-node record for an explanation search.
#[derive(Debug, Clone, Copy, PartialEq, Eq, Structural)]
pub struct ExplainVisit {
    /// Search epoch in which this record is live.
    pub epoch: u32,
    /// Incoming directed edge on the discovered search tree.
    pub parent_edge: DirectedEdge,
}

/// Merge edges with adjacency lists, and scratch space for searching paths.
#[derive(Debug)]
pub struct ProofGraph {
    /// Active equality-proof edges, oldest first.
    edges: Vec<MergeEdge>,
    /// Per-term head of the directed adjacency list.
    heads: Vec<DirectedEdge>,
    /// Reusable visited records for path searches.
    visits: Vec<ExplainVisit>,
    /// Current nonzero search epoch.
    epoch: u32,
    /// Reusable queue storage for path searches.
    queue: Vec<TermId>,
}

/// Discovery state of one path search: `disc` lists the found terms, each after the first found
/// along an edge from an earlier one.
spec fn discovered(
    edges: Seq<MergeEdge>,
    visits: Seq<ExplainVisit>,
    epoch: u32,
    disc: Seq<int>,
) -> bool {
    &&& disc.len() >= 1
    &&& disc.no_duplicates()
    &&& forall|i: int|
        0 <= i < disc.len() ==> 0 <= (#[trigger] disc[i]) < visits.len() && visits[disc[i]].epoch
            == epoch
    &&& forall|t: int|
        0 <= t < visits.len() && (#[trigger] visits[t]).epoch == epoch ==> disc.contains(t)
    &&& forall|i: int| 0 < i < disc.len() ==> #[trigger] tree_step(edges, visits, disc, i)
}

/// The `i`-th found term was found along an edge from an earlier one.
spec fn tree_step(
    edges: Seq<MergeEdge>,
    visits: Seq<ExplainVisit>,
    disc: Seq<int>,
    i: int,
) -> bool {
    let d = visits[disc[i]].parent_edge;
    &&& d.live()
    &&& 0 <= d.edge() < edges.len()
    &&& edges[d.edge()].spec_target(d).0 == disc[i]
    &&& exists|j: int| 0 <= j < i && #[trigger] disc[j] == edges[d.edge()].spec_source(d).0
}

impl ProofGraph {
    /// Returns the number of active equality-proof edges.
    pub fn edge_count(&self) -> (n: usize)
        ensures
            n == self.list().len(),
    {
        self.edges.len()
    }

    /// The active edges, oldest first.
    pub closed spec fn list(&self) -> Seq<MergeEdge> {
        self.edges@
    }

    /// The number of terms.
    pub closed spec fn count(&self) -> nat {
        self.heads@.len()
    }

    /// Edges relate different existing terms, and the adjacency lists hold all of them.
    pub closed spec fn wf(&self) -> bool {
        &&& self.edges.len() < 0x7FFF_FFFF
        &&& edges_in_range(self.edges@, self.heads@.len())
        &&& forall|t: int|
            0 <= t < self.heads.len() ==> (#[trigger] self.heads[t]).raw() == last_out(
                self.edges@,
                self.edges.len() as int,
                t,
            )
        &&& forall|e: int|
            0 <= e < self.edges.len() ==> (#[trigger] self.edges[e]).next_lhs.raw() == last_out(
                self.edges@,
                e,
                self.edges[e].lhs.0 as int,
            ) && self.edges[e].next_rhs.raw() == last_out(
                self.edges@,
                e,
                self.edges[e].rhs.0 as int,
            )
        &&& forall|t: int| 0 <= t < self.visits.len() ==> (#[trigger] self.visits[t]).epoch <= self.epoch
    }

    /// What well-formedness says of the edges.
    pub proof fn lemma_wf(&self)
        requires
            self.wf(),
        ensures
            edges_in_range(self.list(), self.count()),
            self.list().len() < 0x7FFF_FFFF,
    {
    }

    /// Creates a graph over no terms.
    pub fn new() -> (graph: Self)
        ensures
            graph.wf(),
            graph.list() == Seq::<MergeEdge>::empty(),
            graph.count() == 0,
    {
        Self {
            edges: Vec::new(),
            heads: Vec::new(),
            visits: Vec::new(),
            epoch: 0,
            queue: Vec::new(),
        }
    }

    /// Drops all edges and prepares for `count` terms.
    pub fn reset(&mut self, count: usize)
        ensures
            final(self).wf(),
            final(self).list() == Seq::<MergeEdge>::empty(),
            final(self).count() == count,
    {
        self.edges.clear();
        self.heads.clear();
        self.heads.resize(count, DirectedEdge::none());
        self.visits.clear();
        self.epoch = 0;
        self.queue.clear();
    }

    /// Returns the number of edges.
    pub fn len(&self) -> (n: usize)
        ensures
            n == self.list().len(),
    {
        self.edges.len()
    }

    /// Returns one edge.
    pub fn edge(&self, index: usize) -> (edge: MergeEdge)
        requires
            index < self.list().len(),
        ensures
            edge == self.list()[index as int],
    {
        self.edges[index]
    }

    /// Appends one undirected merge edge and its two directed adjacency entries.
    pub fn push_merge_edge(&mut self, lhs: TermId, rhs: TermId, reason: MergeReason)
        requires
            old(self).wf(),
            lhs.0 < old(self).count(),
            rhs.0 < old(self).count(),
            lhs != rhs,
            old(self).list().len() < 0x7FFF_FFFE,
        ensures
            final(self).wf(),
            final(self).count() == old(self).count(),
            final(self).list().len() == old(self).list().len() + 1,
            final(self).list().drop_last() == old(self).list(),
            final(self).list().last().lhs == lhs,
            final(self).list().last().rhs == rhs,
            final(self).list().last().reason == reason,
    {
        let edge_index = self.edges.len();
        let lhs_directed = DirectedEdge::lhs_to_rhs(edge_index);
        let rhs_directed = DirectedEdge::rhs_to_lhs(edge_index);
        let lhs_head = self.heads[lhs.index()];
        let rhs_head = self.heads[rhs.index()];
        self.edges.push(
            MergeEdge { lhs, rhs, next_lhs: lhs_head, next_rhs: rhs_head, reason },
        );
        self.heads.set(lhs.index(), lhs_directed);
        self.heads.set(rhs.index(), rhs_directed);
        proof {
            let n = edge_index as int;
            assert(self.edges@.drop_last() =~= old(self).edges@);
            assert forall|t: int| 0 <= t < self.heads.len() implies (#[trigger] self.heads[t]).raw()
                == last_out(self.edges@, n + 1, t) by {
                lemma_last_out_prefix(old(self).edges@, self.edges@, n, t);
            }
            assert forall|e: int| 0 <= e < self.edges.len() implies (
            #[trigger] self.edges[e]).next_lhs.raw() == last_out(
                self.edges@,
                e,
                self.edges[e].lhs.0 as int,
            ) && self.edges[e].next_rhs.raw() == last_out(
                self.edges@,
                e,
                self.edges[e].rhs.0 as int,
            ) by {
                lemma_last_out_prefix(old(self).edges@, self.edges@, e, self.edges[e].lhs.0 as int);
                lemma_last_out_prefix(old(self).edges@, self.edges@, e, self.edges[e].rhs.0 as int);
                if e < n {
                    assert(self.edges[e] == old(self).edges[e]);
                }
            }
        }
    }

    /// Truncates merge edges while maintaining adjacency-list heads.
    pub fn truncate_merge_edges(&mut self, keep_len: usize)
        requires
            old(self).wf(),
            keep_len <= old(self).list().len(),
        ensures
            final(self).wf(),
            final(self).count() == old(self).count(),
            final(self).list() == old(self).list().take(keep_len as int),
    {
        proof {
            assert(self.edges@ =~= self.edges@.take(self.edges@.len() as int));
        }
        while self.edges.len() > keep_len
            invariant
                self.wf(),
                self.count() == old(self).count(),
                keep_len <= self.edges.len() <= old(self).edges.len(),
                self.edges@ == old(self).edges@.take(self.edges.len() as int),
            decreases self.edges.len(),
        {
            let edge_index = self.edges.len() - 1;
            let edge = self.edges[edge_index];
            let ghost before = *self;
            self.heads.set(edge.lhs.index(), edge.next_lhs);
            self.heads.set(edge.rhs.index(), edge.next_rhs);
            self.edges.pop();
            proof {
                let n = edge_index as int;
                assert(self.edges@ =~= before.edges@.take(n));
                assert(self.edges@ =~= old(self).edges@.take(n));
                assert forall|t: int| 0 <= t < self.heads.len() implies (
                #[trigger] self.heads[t]).raw() == last_out(self.edges@, n, t) by {
                    lemma_last_out_prefix(before.edges@, self.edges@, n, t);
                    assert(before.heads[t].raw() == last_out(before.edges@, n + 1, t));
                }
                assert forall|e: int| 0 <= e < self.edges.len() implies (
                #[trigger] self.edges[e]).next_lhs.raw() == last_out(
                    self.edges@,
                    e,
                    self.edges[e].lhs.0 as int,
                ) && self.edges[e].next_rhs.raw() == last_out(
                    self.edges@,
                    e,
                    self.edges[e].rhs.0 as int,
                ) by {
                    assert(self.edges[e] == before.edges[e]);
                    lemma_last_out_prefix(before.edges@, self.edges@, e, self.edges[e].lhs.0 as int);
                    lemma_last_out_prefix(before.edges@, self.edges@, e, self.edges[e].rhs.0 as int);
                }
            }
        }
    }

    /// Starts a new search epoch and grows scratch storage to the current term count.
    fn prepare_explanation_bfs(&mut self, num_terms: usize)
        requires
            old(self).wf(),
            num_terms == old(self).count(),
        ensures
            final(self).wf(),
            final(self).edges@ == old(self).edges@,
            final(self).heads@ == old(self).heads@,
            final(self).visits.len() == num_terms,
            forall|t: int| 0 <= t < num_terms ==> (#[trigger] final(self).visits[t]).epoch != final(self).epoch,
    {
        let blank = ExplainVisit { epoch: 0, parent_edge: DirectedEdge::none() };
        self.visits.resize(num_terms, blank);
        proof {
            assert forall|t: int| 0 <= t < self.visits.len() implies (#[trigger] self.visits[t]).epoch
                <= self.epoch by {
                if t < old(self).visits.len() {
                    assert(self.visits[t] == old(self).visits[t]);
                } else {
                    assert(cloned(blank, self.visits[t]));
                }
            }
        }
        if self.epoch == 0xFFFF_FFFF {
            let mut t: usize = 0;
            while t < self.visits.len()
                invariant
                    0 <= t <= self.visits.len(),
                    self.visits.len() == num_terms,
                    self.edges@ == old(self).edges@,
                    self.heads@ == old(self).heads@,
                    forall|i: int| 0 <= i < t ==> (#[trigger] self.visits[i]).epoch == 0,
                decreases self.visits.len() - t,
            {
                let visit = self.visits[t];
                self.visits.set(t, ExplainVisit { epoch: 0, parent_edge: visit.parent_edge });
                t += 1;
            }
            self.epoch = 1;
            return;
        }
        self.epoch = self.epoch + 1;
    }

    /// Finds one active proof-graph path between two terms: the edges from `rhs` back to `lhs`.
    pub fn find_equality_explanation_path(&mut self, lhs: TermId, rhs: TermId) -> (found: Option<
        Vec<usize>,
    >)
        requires
            old(self).wf(),
            lhs.0 < old(self).count(),
            rhs.0 < old(self).count(),
        ensures
            final(self).wf(),
            final(self).list() == old(self).list(),
            final(self).count() == old(self).count(),
            found is Some <==> connected(
                old(self).list(),
                every(),
                old(self).list().len() as int,
                lhs.0 as int,
                rhs.0 as int,
            ),
            found matches Some(es) ==> path_between(
                old(self).list(),
                as_ints(es@),
                rhs.0 as int,
                lhs.0 as int,
            ),
    {
        let ghost edges = self.edges@;
        let ghost n = edges.len() as int;
        let count = self.heads.len();
        self.prepare_explanation_bfs(count);
        let epoch = self.epoch;
        self.queue.clear();
        self.queue.push(lhs);
        self.visits.set(lhs.index(), ExplainVisit { epoch, parent_edge: DirectedEdge::none() });
        let ghost mut disc: Seq<int> = seq![lhs.0 as int];
        proof {
            assert(disc[0] == lhs.0);
        }
        let mut qhead: usize = 0;
        let mut found = lhs == rhs;
        while qhead < self.queue.len() && !found
            invariant
                self.wf(),
                self.edges@ == edges,
                n == edges.len(),
                self.heads@ == old(self).heads@,
                count == self.heads.len(),
                self.visits.len() == count,
                self.epoch == epoch,
                lhs.0 < count,
                rhs.0 < count,
                qhead <= self.queue.len(),
                discovered(edges, self.visits@, epoch, disc),
                disc[0] == lhs.0,
                found == disc.contains(rhs.0 as int),
                !found ==> queue_matches(self.queue@, disc),
                !found ==> forall|q: int|
                    0 <= q < qhead ==> #[trigger] expanded(edges, disc, disc[q], 0),
                self.queue.len() <= count,
            decreases count + 1 - qhead,
        {
            let ghost disc0 = disc;
            let current = self.queue[qhead];
            proof {
                assert(disc[qhead as int] == current.0);
                lemma_disc_bound(edges, self.visits@, epoch, disc);
            }
            qhead += 1;
            let mut directed = self.heads[current.index()];
            proof {
                lemma_last_out(edges, n, current.0 as int);
            }
            let ghost mut bound: int = n;
            while !directed.is_none() && !found
                invariant
                    self.wf(),
                    self.edges@ == edges,
                    n == edges.len(),
                    self.heads@ == old(self).heads@,
                    count == self.heads.len(),
                    self.visits.len() == count,
                    self.epoch == epoch,
                    lhs.0 < count,
                    rhs.0 < count,
                    1 <= qhead <= count,
                    current.0 < count,
                    qhead <= disc.len(),
                    disc[qhead - 1] == current.0,
                    discovered(edges, self.visits@, epoch, disc),
                    disc[0] == lhs.0,
                    found == disc.contains(rhs.0 as int),
                    !found ==> queue_matches(self.queue@, disc),
                    self.queue.len() <= count,
                    qhead <= self.queue.len(),
                    0 <= bound <= n,
                    directed.raw() == last_out(edges, bound, current.0 as int),
                    !found ==> expanded(edges, disc, current.0 as int, bound),
                    !found ==> forall|q: int|
                        0 <= q < qhead - 1 ==> #[trigger] expanded(edges, disc, disc[q], 0),
                decreases bound, if found {
                    0int
                } else {
                    1
                },
            {
                proof {
                    lemma_last_out(edges, bound, current.0 as int);
                }
                let edge = self.edges[directed.edge_index()];
                let ghost e = directed.edge();
                let next = edge.target(directed);
                let ghost before = disc;
                proof {
                    assert(edge.spec_source(directed) == current);
                }
                if self.visits[next.index()].epoch != epoch {
                    let ghost visits0 = self.visits@;
                    self.visits.set(next.index(), ExplainVisit { epoch, parent_edge: directed });
                    proof {
                        disc = disc.push(next.0 as int);
                        lemma_discover(
                            edges,
                            visits0,
                            self.visits@,
                            epoch,
                            before,
                            next.0 as int,
                            qhead - 1,
                            directed,
                        );
                    }
                    if next == rhs {
                        found = true;
                        proof {
                            assert(disc[before.len() as int] == rhs.0);
                        }
                    } else {
                        self.queue.push(next);
                        proof {
                            lemma_disc_bound(edges, self.visits@, epoch, disc);
                            assert(!disc.contains(rhs.0 as int)) by {
                                if disc.contains(rhs.0 as int) {
                                    let i = choose|i: int|
                                        0 <= i < disc.len() && disc[i] == rhs.0;
                                    if i < before.len() {
                                        assert(before[i] == rhs.0);
                                    }
                                }
                            }
                        }
                    }
                }
                if !found {
                    directed = edge.next(directed);
                    proof {
                        assert(disc.contains(next.0 as int)) by {
                            if disc.len() > before.len() {
                                assert(disc[before.len() as int] == next.0);
                            } else {
                                assert(self.visits@[next.0 as int].epoch == epoch);
                            }
                        }
                        lemma_expanded_grow(edges, before, disc, current.0 as int, bound);
                        lemma_expand_step(edges, disc, current.0 as int, bound, e);
                        assert forall|q: int| 0 <= q < qhead - 1 implies #[trigger] expanded(
                            edges,
                            disc,
                            disc[q],
                            0,
                        ) by {
                            assert(disc[q] == before[q]);
                            assert(expanded(edges, before, before[q], 0));
                            lemma_expanded_grow(edges, before, disc, disc[q], 0);
                        }
                        bound = e;
                    }
                }
            }
            proof {
                if !found {
                    assert(expanded(edges, disc, disc[qhead - 1], 0)) by {
                        lemma_last_out(edges, bound, current.0 as int);
                    }
                }
            }
        }
        proof {
            lemma_disc_bound(edges, self.visits@, epoch, disc);
        }
        if !found {
            proof {
                let set = |t: int| disc.contains(t);
                if connected(edges, every(), n, lhs.0 as int, rhs.0 as int) {
                    assert(set(lhs.0 as int)) by {
                        assert(disc[0] == lhs.0);
                    }
                    assert forall|e: int| 0 <= e < n implies set((#[trigger] edges[e]).lhs.0 as int)
                        == set(edges[e].rhs.0 as int) by {
                        let l = edges[e].lhs.0 as int;
                        let r = edges[e].rhs.0 as int;
                        if set(l) {
                            let q = choose|q: int| 0 <= q < disc.len() && disc[q] == l;
                            assert(expanded(edges, disc, disc[q], 0));
                        }
                        if set(r) {
                            let q = choose|q: int| 0 <= q < disc.len() && disc[q] == r;
                            assert(expanded(edges, disc, disc[q], 0));
                        }
                    }
                    lemma_connected_closed(edges, set, n, lhs.0 as int, rhs.0 as int);
                }
            }
            return None;
        }
        let mut path_edges: Vec<usize> = Vec::new();
        let mut current = rhs;
        let ghost mut vs: Seq<int> = seq![rhs.0 as int];
        let ghost mut at: int = choose|i: int| 0 <= i < disc.len() && disc[i] == rhs.0;
        while current != lhs
            invariant
                self.wf(),
                self.edges@ == edges,
                self.heads@ == old(self).heads@,
                count == self.heads.len(),
                self.visits.len() == count,
                lhs.0 < count,
                current.0 < count,
                discovered(edges, self.visits@, epoch, disc),
                disc[0] == lhs.0,
                0 <= at < disc.len(),
                disc[at] == current.0,
                vs.len() == path_edges.len() + 1,
                vs[0] == rhs.0,
                vs.last() == current.0,
                path(edges, vs, as_ints(path_edges@)),
                forall|i: int|
                    0 <= i < vs.len() ==> exists|j: int|
                        at <= j < disc.len() && #[trigger] disc[j] == #[trigger] vs[i],
            decreases at,
        {
            proof {
                if at == 0 {
                    assert(current == lhs);
                }
                assert(tree_step(edges, self.visits@, disc, at));
            }
            let parent_edge = self.visits[current.index()].parent_edge;
            let edge = self.edges[parent_edge.edge_index()];
            let ghost before = as_ints(path_edges@);
            path_edges.push(parent_edge.edge_index());
            let previous = edge.other_endpoint(current);
            proof {
                let source = edge.spec_source(parent_edge);
                assert(edges_in_range(edges, count as nat));
                assert(edge.lhs != edge.rhs);
                assert(previous == source);
                let j = choose|j: int| 0 <= j < at && #[trigger] disc[j] == source.0;
                let more = vs.push(source.0 as int);
                let after = as_ints(path_edges@);
                assert(after =~= before.push(parent_edge.edge()));
                assert forall|i: int| 0 <= i < vs.len() implies vs[i] != source.0 by {
                    let k = choose|k: int|
                        at <= k < disc.len() && #[trigger] disc[k] == #[trigger] vs[i];
                    if vs[i] == source.0 {
                        assert(disc[k] == disc[j]);
                    }
                }
                assert(path(edges, more, after)) by {
                    assert forall|i: int| 0 <= i < after.len() implies 0 <= (#[trigger] after[i])
                        < edges.len() && joins(edges[after[i]], more[i], more[i + 1]) by {
                        if i < before.len() {
                            assert(after[i] == before[i]);
                        }
                    }
                }
                assert forall|i: int| 0 <= i < more.len() implies exists|k: int|
                    j <= k < disc.len() && #[trigger] disc[k] == #[trigger] more[i] by {
                    if i < vs.len() {
                        let k = choose|k: int|
                            at <= k < disc.len() && #[trigger] disc[k] == #[trigger] vs[i];
                        assert(disc[k] == more[i]);
                    } else {
                        assert(disc[j] == more[i]);
                    }
                }
                vs = more;
                at = j;
            }
            current = previous;
        }
        proof {
            let es = as_ints(path_edges@);
            assert(path(edges, vs, es));
            assert forall|i: int| 0 <= i < es.len() implies (#[trigger] es[i]) < n && every()(
                es[i],
            ) by {}
            lemma_path_connects(edges, every(), n, vs, es);
            lemma_connected_equivalence(edges, every(), n);
            assert(path_between(edges, es, rhs.0 as int, lhs.0 as int));
        }
        Some(path_edges)
    }
}

/// Every edge relates two different terms among the first `count`.
pub open spec fn edges_in_range(edges: Seq<MergeEdge>, count: nat) -> bool {
    forall|e: int|
        0 <= e < edges.len() ==> (#[trigger] edges[e]).lhs.0 < count && edges[e].rhs.0 < count
            && edges[e].lhs != edges[e].rhs
}

spec fn queue_matches(queue: Seq<TermId>, disc: Seq<int>) -> bool {
    &&& queue.len() == disc.len()
    &&& forall|i: int| 0 <= i < queue.len() ==> (#[trigger] queue[i]).0 == disc[i]
}

/// The far ends of all edges at `t` from edge `from` on have been found.
spec fn expanded(edges: Seq<MergeEdge>, disc: Seq<int>, t: int, from: int) -> bool {
    forall|e: int|
        from <= e < edges.len() ==> ((#[trigger] edges[e]).lhs.0 == t ==> disc.contains(
            edges[e].rhs.0 as int,
        )) && (edges[e].rhs.0 == t ==> disc.contains(edges[e].lhs.0 as int))
}

proof fn lemma_expanded_grow(
    edges: Seq<MergeEdge>,
    before: Seq<int>,
    after: Seq<int>,
    t: int,
    from: int,
)
    requires
        0 <= from,
        expanded(edges, before, t, from),
        before.len() <= after.len(),
        forall|i: int| 0 <= i < before.len() ==> before[i] == after[i],
    ensures
        expanded(edges, after, t, from),
{
    assert forall|x: int| before.contains(x) implies #[trigger] after.contains(x) by {
        let i = choose|i: int| 0 <= i < before.len() && before[i] == x;
        assert(after[i] == x);
    }
}

proof fn lemma_expand_step(edges: Seq<MergeEdge>, disc: Seq<int>, t: int, bound: int, e: int)
    requires
        0 <= e < bound <= edges.len(),
        edges.len() < 0x7FFF_FFFF,
        expanded(edges, disc, t, bound),
        last_out(edges, bound, t) / 2 == e,
        last_out(edges, bound, t) != 0xFFFF_FFFF,
        edges[e].lhs != edges[e].rhs,
        edges[e].lhs.0 == t ==> disc.contains(edges[e].rhs.0 as int),
        edges[e].rhs.0 == t ==> disc.contains(edges[e].lhs.0 as int),
    ensures
        expanded(edges, disc, t, e),
{
    lemma_last_out(edges, bound, t);
    assert forall|x: int| e <= x < edges.len() implies ((#[trigger] edges[x]).lhs.0 == t
        ==> disc.contains(edges[x].rhs.0 as int)) && (edges[x].rhs.0 == t ==> disc.contains(
        edges[x].lhs.0 as int,
    )) by {
        if e < x < bound {
            if edges[x].lhs.0 == t || edges[x].rhs.0 == t {
                assert(x <= last_out(edges, bound, t) / 2);
            }
        }
    }
}

proof fn lemma_discover(
    edges: Seq<MergeEdge>,
    before: Seq<ExplainVisit>,
    visits: Seq<ExplainVisit>,
    epoch: u32,
    disc: Seq<int>,
    next: int,
    source: int,
    directed: DirectedEdge,
)
    requires
        0 <= next < visits.len(),
        discovered(edges, before, epoch, disc),
        before.len() == visits.len(),
        before[next].epoch != epoch,
        visits == before.update(next, (ExplainVisit { epoch, parent_edge: directed })),
        0 <= source < disc.len(),
        directed.live(),
        0 <= directed.edge() < edges.len(),
        edges[directed.edge()].spec_target(directed).0 == next,
        edges[directed.edge()].spec_source(directed).0 == disc[source],
    ensures
        discovered(edges, visits, epoch, disc.push(next)),
{
    let more = disc.push(next);
    assert(!disc.contains(next)) by {
        if disc.contains(next) {
            let i = choose|i: int| 0 <= i < disc.len() && disc[i] == next;
            assert(before[disc[i]].epoch == epoch);
        }
    }
    assert forall|i: int| 0 <= i < disc.len() implies disc[i] != next by {
        if disc[i] == next {
            assert(disc.contains(next));
        }
    }
    assert forall|t: int| 0 <= t < visits.len() && (#[trigger] visits[t]).epoch
        == epoch implies more.contains(t) by {
        if t == next {
            assert(more[disc.len() as int] == t);
        } else {
            assert(before[t].epoch == epoch);
            let i = choose|i: int| 0 <= i < disc.len() && disc[i] == t;
            assert(more[i] == t);
        }
    }
    assert forall|i: int| 0 < i < more.len() implies #[trigger] tree_step(
        edges,
        visits,
        more,
        i,
    ) by {
        if i < disc.len() {
            assert(tree_step(edges, before, disc, i));
            assert(disc[i] != next);
            let d = before[disc[i]].parent_edge;
            let j = choose|j: int|
                0 <= j < i && #[trigger] disc[j] == edges[d.edge()].spec_source(d).0;
            assert(more[j] == edges[d.edge()].spec_source(d).0);
        } else {
            assert(more[source] == edges[directed.edge()].spec_source(directed).0);
        }
    }
}

/// At most all terms are found.
proof fn lemma_disc_bound(
    edges: Seq<MergeEdge>,
    visits: Seq<ExplainVisit>,
    epoch: u32,
    disc: Seq<int>,
)
    requires
        discovered(edges, visits, epoch, disc),
    ensures
        disc.len() <= visits.len(),
{
    let range = vstd::set_lib::set_int_range(0, visits.len() as int);
    vstd::set_lib::lemma_int_range(0, visits.len() as int);
    disc.unique_seq_to_set();
    assert(disc.to_set().subset_of(range)) by {
        assert forall|t: int| disc.to_set().contains(t) implies range.contains(t) by {
            let i = choose|i: int| 0 <= i < disc.len() && disc[i] == t;
        }
    }
    vstd::set_lib::lemma_len_subset(disc.to_set(), range);
}

} // verus!
