//! Persistent Boolean formulas, stored once each.

use crate::euf::table::Interner;
use crate::euf_core::{lemma_term_id_range, TermId};
use crate::sat::{Assignment, Var};
use crate::semantics::{value, Interp, TermView};
use vstd::prelude::*;

verus! {

/// Stable identifier for one persistent lowered formula node.
#[derive(Debug, Clone, Copy, PartialEq, Eq, Hash, PartialOrd, Ord, Structural)]
pub struct LowerFormulaId(u32);

impl LowerFormulaId {
    /// The index behind this identifier.
    pub closed spec fn id(self) -> int {
        self.0 as int
    }

    /// Returns the index behind this identifier.
    pub fn index(self) -> (i: usize)
        ensures
            i == self.id(),
    {
        self.0 as usize
    }
}

/// Persistent Boolean formula stored above the backend.
#[derive(Debug)]
pub enum FormulaNode {
    /// Constant truth.
    True,
    /// Constant falsity.
    False,
    /// Surface Boolean symbol used directly in formula position.
    BoolSymbol(Var),
    /// Boolean negation.
    Not(LowerFormulaId),
    /// Conjunction of child formulas.
    And(Vec<LowerFormulaId>),
    /// Disjunction of child formulas.
    Or(Vec<LowerFormulaId>),
    /// Binary implication.
    Implies(LowerFormulaId, LowerFormulaId),
    /// Chained Boolean equality.
    BoolEq(Vec<LowerFormulaId>),
    /// Chained term equality.
    TermEq(Vec<TermId>),
    /// Pairwise term disequality.
    Distinct(Vec<TermId>),
    /// Formula-valued conditional.
    FormulaIte {
        /// Guard deciding which branch is active.
        cond: LowerFormulaId,
        /// Branch chosen when `cond` is true.
        then_branch: LowerFormulaId,
        /// Branch chosen when `cond` is false.
        else_branch: LowerFormulaId,
    },
}

/// The indices of formula identifiers.
pub open spec fn formula_ids(ids: Seq<LowerFormulaId>) -> Seq<int> {
    ids.map_values(|i: LowerFormulaId| i.id())
}

/// The indices of term identifiers.
pub open spec fn term_ids(ids: Seq<TermId>) -> Seq<int> {
    ids.map_values(|t: TermId| t.id())
}

/// One formula node as a mathematical value: a kind, and the indices it is made of.
#[verifier::ext_equal]
pub struct NodeView {
    /// Which kind of node this is.
    pub kind: NodeKind,
    /// Variable, formula or term indices.
    pub parts: Seq<int>,
}

/// The kinds of formula nodes.
#[derive(Debug, Clone, Copy, PartialEq, Eq, Structural)]
pub enum NodeKind {
    /// Constant truth.
    True,
    /// Constant falsity.
    False,
    /// Boolean symbol.
    BoolSymbol,
    /// Negation.
    Not,
    /// Conjunction.
    And,
    /// Disjunction.
    Or,
    /// Implication.
    Implies,
    /// Chained Boolean equality.
    BoolEq,
    /// Chained term equality.
    TermEq,
    /// Pairwise disequality.
    Distinct,
    /// Conditional.
    Ite,
}

impl FormulaNode {
    /// The node as a mathematical value.
    pub open spec fn node(self) -> NodeView {
        match self {
            FormulaNode::True => NodeView { kind: NodeKind::True, parts: Seq::empty() },
            FormulaNode::False => NodeView { kind: NodeKind::False, parts: Seq::empty() },
            FormulaNode::BoolSymbol(var) => NodeView {
                kind: NodeKind::BoolSymbol,
                parts: seq![var.0 as int],
            },
            FormulaNode::Not(inner) => NodeView { kind: NodeKind::Not, parts: seq![inner.id()] },
            FormulaNode::And(ids) => NodeView { kind: NodeKind::And, parts: formula_ids(ids@) },
            FormulaNode::Or(ids) => NodeView { kind: NodeKind::Or, parts: formula_ids(ids@) },
            FormulaNode::Implies(p, q) => NodeView {
                kind: NodeKind::Implies,
                parts: seq![p.id(), q.id()],
            },
            FormulaNode::BoolEq(ids) => NodeView {
                kind: NodeKind::BoolEq,
                parts: formula_ids(ids@),
            },
            FormulaNode::TermEq(ids) => NodeView { kind: NodeKind::TermEq, parts: term_ids(ids@) },
            FormulaNode::Distinct(ids) => NodeView {
                kind: NodeKind::Distinct,
                parts: term_ids(ids@),
            },
            FormulaNode::FormulaIte { cond, then_branch, else_branch } => NodeView {
                kind: NodeKind::Ite,
                parts: seq![cond.id(), then_branch.id(), else_branch.id()],
            },
        }
    }
}

/// The node is made of formulas below `n`, of allocated variables and of interned terms.
pub open spec fn node_ok(node: NodeView, n: int, vars: nat, terms: nat) -> bool {
    &&& match node.kind {
        NodeKind::True | NodeKind::False => node.parts.len() == 0,
        NodeKind::BoolSymbol | NodeKind::Not => node.parts.len() == 1,
        NodeKind::Implies => node.parts.len() == 2,
        NodeKind::Ite => node.parts.len() == 3,
        _ => true,
    }
    &&& forall|k: int|
        0 <= k < node.parts.len() ==> 0 <= (#[trigger] node.parts[k]) && match node.kind {
            NodeKind::BoolSymbol => node.parts[k] < vars,
            NodeKind::TermEq | NodeKind::Distinct => node.parts[k] < terms,
            _ => node.parts[k] < n,
        }
}

/// All nodes are made of earlier ones, of allocated variables and of interned terms.
pub open spec fn nodes_ok(nodes: Seq<NodeView>, vars: nat, terms: nat) -> bool {
    forall|i: int| 0 <= i < nodes.len() ==> #[trigger] node_ok(nodes[i], i, vars, terms)
}

/// The truth value of formula `i`.
pub open spec fn node_true(
    nodes: Seq<NodeView>,
    terms: Seq<TermView>,
    m: Interp,
    a: Assignment,
    i: int,
) -> bool
    decreases i,
{
    if 0 <= i < nodes.len() {
        let parts = nodes[i].parts;
        match nodes[i].kind {
            NodeKind::True => true,
            NodeKind::False => false,
            NodeKind::BoolSymbol => a(parts[0]),
            NodeKind::Not => 0 <= parts[0] < i && !node_true(nodes, terms, m, a, parts[0]),
            NodeKind::And => forall|k: int|
                0 <= k < parts.len() ==> 0 <= (#[trigger] parts[k]) < i && node_true(
                    nodes,
                    terms,
                    m,
                    a,
                    parts[k],
                ),
            NodeKind::Or => exists|k: int|
                0 <= k < parts.len() && 0 <= (#[trigger] parts[k]) < i && node_true(
                    nodes,
                    terms,
                    m,
                    a,
                    parts[k],
                ),
            NodeKind::Implies => 0 <= parts[0] < i && 0 <= parts[1] < i && (node_true(
                nodes,
                terms,
                m,
                a,
                parts[0],
            ) ==> node_true(nodes, terms, m, a, parts[1])),
            NodeKind::BoolEq => forall|k: int|
                0 <= k && k + 1 < parts.len() ==> 0 <= (#[trigger] parts[k]) < i && 0 <= parts[k
                    + 1] < i && node_true(nodes, terms, m, a, parts[k]) == node_true(
                    nodes,
                    terms,
                    m,
                    a,
                    parts[k + 1],
                ),
            NodeKind::TermEq => forall|k: int|
                0 <= k && k + 1 < parts.len() ==> value(terms, m, #[trigger] parts[k]) == value(
                    terms,
                    m,
                    parts[k + 1],
                ),
            NodeKind::Distinct => forall|j: int, k: int|
                0 <= j < k < parts.len() ==> value(terms, m, #[trigger] parts[j]) != value(
                    terms,
                    m,
                    #[trigger] parts[k],
                ),
            NodeKind::Ite => 0 <= parts[0] < i && 0 <= parts[1] < i && 0 <= parts[2] < i && if node_true(
                nodes,
                terms,
                m,
                a,
                parts[0],
            ) {
                node_true(nodes, terms, m, a, parts[1])
            } else {
                node_true(nodes, terms, m, a, parts[2])
            },
        }
    } else {
        false
    }
}

/// Truth values do not change when nodes and terms are added.
pub proof fn lemma_node_same(
    nodes: Seq<NodeView>,
    more: Seq<NodeView>,
    terms: Seq<TermView>,
    later: Seq<TermView>,
    m: Interp,
    a: Assignment,
    vars: nat,
    i: int,
)
    requires
        nodes_ok(nodes, vars, terms.len()),
        nodes.len() <= more.len(),
        forall|j: int| 0 <= j < nodes.len() ==> #[trigger] more[j] == nodes[j],
        forall|t: int|
            0 <= t < terms.len() ==> #[trigger] value(later, m, t) == value(terms, m, t),
        0 <= i < nodes.len(),
    ensures
        node_true(more, later, m, a, i) == node_true(nodes, terms, m, a, i),
    decreases i,
{
    assert(node_ok(nodes[i], i, vars, terms.len()));
    assert(more[i] == nodes[i]);
    let parts = nodes[i].parts;
    let formula = match nodes[i].kind {
        NodeKind::BoolSymbol | NodeKind::TermEq | NodeKind::Distinct => false,
        _ => true,
    };
    if formula {
        assert forall|k: int| 0 <= k < parts.len() implies node_true(
            more,
            later,
            m,
            a,
            #[trigger] parts[k],
        ) == node_true(nodes, terms, m, a, parts[k]) by {
            lemma_node_same(nodes, more, terms, later, m, a, vars, parts[k]);
        }
    } else {
        assert forall|k: int|
            0 <= k < parts.len() && nodes[i].kind != NodeKind::BoolSymbol implies value(
            later,
            m,
            #[trigger] parts[k],
        ) == value(terms, m, parts[k]) by {}
    }
    match nodes[i].kind {
        NodeKind::Or => {
            if node_true(nodes, terms, m, a, i) {
                let k = choose|k: int|
                    0 <= k < parts.len() && 0 <= (#[trigger] parts[k]) < i && node_true(
                        nodes,
                        terms,
                        m,
                        a,
                        parts[k],
                    );
                assert(node_true(more, later, m, a, parts[k]));
            }
            if node_true(more, later, m, a, i) {
                let k = choose|k: int|
                    0 <= k < parts.len() && 0 <= (#[trigger] parts[k]) < i && node_true(
                        more,
                        later,
                        m,
                        a,
                        parts[k],
                    );
                assert(node_true(nodes, terms, m, a, parts[k]));
            }
        },
        _ => {},
    }
}

spec fn kind_tag(kind: NodeKind) -> u32 {
    match kind {
        NodeKind::True => 0,
        NodeKind::False => 1,
        NodeKind::BoolSymbol => 2,
        NodeKind::Not => 3,
        NodeKind::And => 4,
        NodeKind::Or => 5,
        NodeKind::Implies => 6,
        NodeKind::BoolEq => 7,
        NodeKind::TermEq => 8,
        NodeKind::Distinct => 9,
        NodeKind::Ite => 10,
    }
}

spec fn node_key(node: NodeView) -> Seq<u32> {
    seq![kind_tag(node.kind)] + node.parts.map_values(|p: int| p as u32)
}

/// All parts fit an index.
spec fn small(node: NodeView) -> bool {
    forall|k: int| 0 <= k < node.parts.len() ==> 0 <= (#[trigger] node.parts[k]) <= u32::MAX
}

proof fn lemma_key_injective(x: NodeView, y: NodeView)
    requires
        node_key(x) == node_key(y),
        small(x),
        small(y),
    ensures
        x == y,
{
    let kx = node_key(x);
    let ky = node_key(y);
    assert(kx[0] == kind_tag(x.kind) && ky[0] == kind_tag(y.kind));
    assert(kx.len() == 1 + x.parts.len() && ky.len() == 1 + y.parts.len());
    assert forall|k: int| 0 <= k < x.parts.len() implies x.parts[k] == y.parts[k] by {
        assert(kx[k + 1] == x.parts[k] as u32);
        assert(ky[k + 1] == y.parts[k] as u32);
    }
    assert(x.parts =~= y.parts);
}

/// Appends formula indices.
fn push_formulas(key: &mut Vec<u32>, ids: &Vec<LowerFormulaId>)
    ensures
        final(key)@ == old(key)@ + formula_ids(ids@).map_values(|p: int| p as u32),
{
    let mut i: usize = 0;
    let ghost all = formula_ids(ids@).map_values(|p: int| p as u32);
    while i < ids.len()
        invariant
            0 <= i <= ids.len(),
            all == formula_ids(ids@).map_values(|p: int| p as u32),
            key@ == old(key)@ + all.take(i as int),
        decreases ids.len() - i,
    {
        key.push(ids[i].0);
        proof {
            assert(all[i as int] == ids@[i as int].0);
            assert(all.take(i as int + 1) =~= all.take(i as int).push(all[i as int]));
            assert(key@ =~= old(key)@ + all.take(i as int + 1));
        }
        i += 1;
    }
    proof {
        assert(all.take(i as int) =~= all);
    }
}

/// Appends term indices.
pub fn push_terms(key: &mut Vec<u32>, ids: &Vec<TermId>)
    ensures
        final(key)@ == old(key)@ + term_ids(ids@).map_values(|p: int| p as u32),
{
    let mut i: usize = 0;
    let ghost all = term_ids(ids@).map_values(|p: int| p as u32);
    while i < ids.len()
        invariant
            0 <= i <= ids.len(),
            all == term_ids(ids@).map_values(|p: int| p as u32),
            key@ == old(key)@ + all.take(i as int),
        decreases ids.len() - i,
    {
        let id = ids[i];
        proof {
            lemma_term_id_range(id);
        }
        key.push(id.index() as u32);
        proof {
            assert(all[i as int] == id.id() as u32);
            assert(all.take(i as int + 1) =~= all.take(i as int).push(all[i as int]));
            assert(key@ =~= old(key)@ + all.take(i as int + 1));
        }
        i += 1;
    }
    proof {
        assert(all.take(i as int) =~= all);
    }
}

/// Returns the key under which a node is stored.
fn key_of(node: &FormulaNode) -> (key: Vec<u32>)
    ensures
        key@ == node_key(node.node()),
{
    let mut key: Vec<u32> = Vec::new();
    let ghost parts = node.node().parts.map_values(|p: int| p as u32);
    match node {
        FormulaNode::True => {
            key.push(0);
        },
        FormulaNode::False => {
            key.push(1);
        },
        FormulaNode::BoolSymbol(var) => {
            key.push(2);
            key.push(var.0);
        },
        FormulaNode::Not(inner) => {
            key.push(3);
            key.push(inner.0);
        },
        FormulaNode::And(ids) => {
            key.push(4);
            push_formulas(&mut key, ids);
        },
        FormulaNode::Or(ids) => {
            key.push(5);
            push_formulas(&mut key, ids);
        },
        FormulaNode::Implies(p, q) => {
            key.push(6);
            key.push(p.0);
            key.push(q.0);
        },
        FormulaNode::BoolEq(ids) => {
            key.push(7);
            push_formulas(&mut key, ids);
        },
        FormulaNode::TermEq(ids) => {
            key.push(8);
            push_terms(&mut key, ids);
        },
        FormulaNode::Distinct(ids) => {
            key.push(9);
            push_terms(&mut key, ids);
        },
        FormulaNode::FormulaIte { cond, then_branch, else_branch } => {
            key.push(10);
            key.push(cond.0);
            key.push(then_branch.0);
            key.push(else_branch.0);
        },
    }
    proof {
        assert(key@ =~= seq![kind_tag(node.node().kind)] + parts);
    }
    key
}

/// Persistent formula arena without duplicates.
#[derive(Debug)]
pub struct FormulaArena {
    /// Stored formulas.
    formulas: Vec<FormulaNode>,
    /// Index of every stored formula.
    formula_intern: Interner,
}

impl FormulaArena {
    /// The stored formulas.
    pub closed spec fn nodes(&self) -> Seq<NodeView> {
        self.formulas@.map_values(|n: FormulaNode| n.node())
    }

    /// Every formula is stored once, under its key.
    pub closed spec fn wf(&self) -> bool {
        &&& self.formula_intern.wf()
        &&& self.formula_intern.lists() == self.nodes().map_values(|n: NodeView| node_key(n))
        &&& forall|i: int| 0 <= i < self.nodes().len() ==> small(#[trigger] self.nodes()[i])
    }

    /// No formula is stored twice.
    pub proof fn lemma_canonical(&self, i: int, j: int)
        requires
            self.wf(),
            0 <= i < self.nodes().len(),
            0 <= j < self.nodes().len(),
            self.nodes()[i] == self.nodes()[j],
        ensures
            i == j,
    {
        assert(self.formula_intern.lists()[i] == node_key(self.nodes()[i]));
        assert(self.formula_intern.lists()[j] == node_key(self.nodes()[j]));
        self.formula_intern.lemma_distinct(i, j);
    }

    /// The number of formulas fits a handle.
    pub proof fn lemma_len(&self)
        requires
            self.wf(),
        ensures
            self.nodes().len() <= u32::MAX,
    {
        self.formula_intern.lemma_len();
    }

    /// Creates an empty arena.
    pub fn new() -> (arena: Self)
        ensures
            arena.wf(),
            arena.nodes() == Seq::<NodeView>::empty(),
    {
        let arena = FormulaArena { formulas: Vec::new(), formula_intern: Interner::new() };
        proof {
            assert(arena.nodes() =~= Seq::<NodeView>::empty());
            assert(arena.formula_intern.lists() =~= arena.nodes().map_values(
                |n: NodeView| node_key(n),
            ));
        }
        arena
    }

    /// Returns the number of stored formulas.
    pub fn len(&self) -> (n: usize)
        ensures
            n == self.nodes().len(),
    {
        self.formulas.len()
    }

    /// Deduplicates `node` and returns its stable identifier, unless all identifiers are in use.
    pub fn intern_formula(&mut self, node: FormulaNode) -> (result: Option<LowerFormulaId>)
        requires
            old(self).wf(),
            forall|k: int|
                0 <= k < node.node().parts.len() ==> 0 <= (#[trigger] node.node().parts[k])
                    <= u32::MAX,
        ensures
            final(self).wf(),
            result is None ==> old(self).nodes().len() == u32::MAX && *final(self) == *old(self),
            result matches Some(id) ==> {
                &&& 0 <= id.id() < final(self).nodes().len()
                &&& final(self).nodes()[id.id()] == node.node()
                &&& final(self).nodes() == if old(self).nodes().contains(node.node()) {
                    old(self).nodes()
                } else {
                    old(self).nodes().push(node.node())
                }
            },
    {
        let key = key_of(&node);
        let ghost view = node.node();
        let ghost lists = self.formula_intern.lists();
        let ghost nodes = self.nodes();
        proof {
            assert(small(view));
            self.formula_intern.lemma_len();
        }
        if let Some(id) = self.formula_intern.find(&key) {
            proof {
                assert(lists[id as int] == node_key(nodes[id as int]));
                lemma_key_injective(nodes[id as int], view);
                assert(nodes.contains(view));
            }
            return Some(LowerFormulaId(id));
        }
        if self.formulas.len() >= 0xFFFF_FFFF {
            return None;
        }
        proof {
            if nodes.contains(view) {
                let i = choose|i: int| 0 <= i < nodes.len() && nodes[i] == view;
                assert(lists[i] == node_key(nodes[i]));
                assert(lists.contains(node_key(view)));
            }
        }
        let interned = self.formula_intern.intern(key);
        self.formulas.push(node);
        proof {
            assert(self.nodes() =~= nodes.push(view));
            assert(self.formula_intern.lists() =~= self.nodes().map_values(
                |n: NodeView| node_key(n),
            ));
        }
        Some(LowerFormulaId(interned.id))
    }

    /// Returns the formula node addressed by `id`.
    pub fn formula(&self, id: LowerFormulaId) -> (node: &FormulaNode)
        requires
            0 <= id.id() < self.nodes().len(),
        ensures
            node.node() == self.nodes()[id.id()],
    {
        &self.formulas[id.0 as usize]
    }
}

/// Identifiers are equal exactly when their indices are.
pub proof fn lemma_formula_id(a: LowerFormulaId, b: LowerFormulaId)
    ensures
        a.id() == b.id() <==> a == b,
        0 <= a.id() <= u32::MAX,
{
}

} // verus!
