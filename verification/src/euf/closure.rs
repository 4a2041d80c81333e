//! What the congruence-closure state of one search means, and what keeps it meaningful.

use crate::euf::classes::ClassState;
use crate::euf::ids::{TermId, TheoryAtomId};
use crate::euf::proof_graph::{
    connected, edges_in_range, every, forest, lemma_connected_prefix, MergeEdge, MergeReason,
};
use crate::sat::{Lit, Var};
use crate::semantics::{
    congruence_on, label_interp, lemma_label_interp, same_signature, value, well_founded, Interp,
    TermView,
};
use vstd::prelude::*;

verus! {

/// One active disequality fact.
#[derive(Debug, Clone, Copy, PartialEq, Eq, Structural)]
pub struct DisequalityEntry {
    /// Left endpoint.
    pub lhs: TermId,
    /// Right endpoint.
    pub rhs: TermId,
    /// Literal asserting disequality.
    pub reason_lit: Lit,
}

/// One input equality waiting to merge.
#[derive(Debug, Clone, Copy, PartialEq, Eq, Structural)]
pub struct MergeInput {
    /// Left term.
    pub lhs: TermId,
    /// Right term.
    pub rhs: TermId,
    /// Assigned literal justifying this merge.
    pub reason_lit: Lit,
}

/// The terms and atoms of a search, and the variables bound to the atoms.
#[verifier::ext_equal]
pub struct Context {
    /// Terms by handle index.
    pub terms: Seq<TermView>,
    /// Endpoints of each atom by handle index.
    pub atoms: Seq<(TermId, TermId)>,
    /// Atom bound to each variable.
    pub var_atoms: Seq<Option<TheoryAtomId>>,
}

impl Context {
    /// Terms and atoms are canonical, and each atom has at most one variable.
    pub open spec fn ok(self) -> bool {
        &&& self.terms.len() < 0x7FFF_FFFF
        &&& self.atoms.len() <= u32::MAX
        &&& well_founded(self.terms)
        &&& self.terms.no_duplicates()
        &&& forall|t: int| 0 <= t < self.terms.len() ==> 0 <= (#[trigger] self.terms[t]).fun <= u32::MAX
        &&& forall|a: int|
            0 <= a < self.atoms.len() ==> (#[trigger] self.atoms[a]).0.0 < self.terms.len()
                && self.atoms[a].1.0 < self.terms.len()
        &&& forall|v: int|
            0 <= v < self.var_atoms.len() && (#[trigger] self.var_atoms[v]) is Some
                ==> (self.var_atoms[v]->0).0 < self.atoms.len()
        &&& forall|v: int, w: int|
            0 <= v < self.var_atoms.len() && 0 <= w < self.var_atoms.len() && (
            #[trigger] self.var_atoms[v]) is Some && #[trigger] self.var_atoms[w]
                == self.var_atoms[v] ==> v == w
    }

    /// The variable is bound to an atom.
    pub open spec fn bound(self, var: Var) -> bool {
        var.0 < self.var_atoms.len() && self.var_atoms[var.0 as int] is Some
    }

    /// The atom of a bound literal.
    pub open spec fn atom(self, lit: Lit) -> int {
        (self.var_atoms[lit.var.0 as int]->0).0 as int
    }

    /// The left endpoint of a bound literal's atom.
    pub open spec fn lhs(self, lit: Lit) -> int {
        self.atoms[self.atom(lit)].0.0 as int
    }

    /// The right endpoint of a bound literal's atom.
    pub open spec fn rhs(self, lit: Lit) -> int {
        self.atoms[self.atom(lit)].1.0 as int
    }

    /// The endpoints of a bound literal's atom are equal under `m`.
    pub open spec fn equal_in(self, m: Interp, lit: Lit) -> bool {
        value(self.terms, m, self.lhs(lit)) == value(self.terms, m, self.rhs(lit))
    }

    /// The bound literal is true when equalities mean equality under `m`.
    pub open spec fn lit_holds(self, m: Interp, lit: Lit) -> bool {
        self.equal_in(m, lit) != lit.negated
    }
}

/// The congruence-closure state: classes, congruence table, proof edges, active disequalities,
/// processed literals, and the work still to do.
#[verifier::ext_equal]
pub struct Core {
    /// Equality classes.
    pub state: ClassState,
    /// Owner of each known signature.
    pub table: Map<Seq<u32>, u32>,
    /// Merge edges.
    pub edges: Seq<MergeEdge>,
    /// Active disequalities.
    pub diseqs: Seq<DisequalityEntry>,
    /// Processed literals.
    pub lits: Seq<Lit>,
    /// Applications to be looked up again.
    pub repairs: Seq<TermId>,
    /// Equalities to be merged.
    pub merges: Seq<MergeInput>,
}

impl Core {
    /// The current signature of term `t`: its symbol and the representatives of its arguments.
    pub open spec fn signature(self, ctx: Context, t: int) -> Seq<u32> {
        seq![ctx.terms[t].fun as u32] + Seq::new(
            ctx.terms[t].args.len(),
            |k: int| self.state.root(ctx.terms[t].args[k]) as u32,
        )
    }

    /// The key is a signature that the owner's arguments have had.
    pub open spec fn entry_sound(self, ctx: Context, key: Seq<u32>) -> bool {
        let owner = self.table[key] as int;
        &&& owner < ctx.terms.len()
        &&& key.len() == 1 + ctx.terms[owner].args.len()
        &&& key[0] == ctx.terms[owner].fun
        &&& forall|k: int|
            0 <= k < ctx.terms[owner].args.len() ==> #[trigger] self.arg_known(ctx, key, k)
    }

    /// Argument `k` of the owner of `key` is in the class that the key names.
    pub open spec fn arg_known(self, ctx: Context, key: Seq<u32>, k: int) -> bool {
        &&& key[1 + k] < ctx.terms.len()
        &&& self.state.same(
            key[1 + k] as int,
            ctx.terms[self.table[key] as int].args[k],
        )
    }

    /// The current signature of `t` is known, with an owner in the class of `t`.
    pub open spec fn settled(self, ctx: Context, t: int) -> bool {
        let key = self.signature(ctx, t);
        &&& self.table.contains_key(key)
        &&& self.table[key] < ctx.terms.len()
        &&& self.state.same(self.table[key] as int, t)
    }

    /// Edge `e` is justified by a processed literal or by edges before it.
    pub open spec fn justified(self, ctx: Context, e: int) -> bool {
        match self.edges[e].reason {
            MergeReason::InputEq { reason_lit } => {
                &&& self.lits.contains(reason_lit)
                &&& ctx.bound(reason_lit.var)
                &&& !reason_lit.negated
                &&& ctx.lhs(reason_lit) == self.edges[e].lhs.0
                &&& ctx.rhs(reason_lit) == self.edges[e].rhs.0
            },
            MergeReason::Congruence { left_parent, right_parent } => {
                let l = left_parent.0 as int;
                let r = right_parent.0 as int;
                &&& left_parent == self.edges[e].lhs
                &&& right_parent == self.edges[e].rhs
                &&& ctx.terms[l].fun == ctx.terms[r].fun
                &&& ctx.terms[l].args.len() == ctx.terms[r].args.len()
                &&& forall|k: int|
                    0 <= k < ctx.terms[l].args.len() ==> connected(
                        self.edges,
                        every(),
                        e,
                        #[trigger] ctx.terms[l].args[k],
                        ctx.terms[r].args[k],
                    )
            },
        }
    }

    /// Disequality `d` comes from a processed negative literal.
    pub open spec fn asserted(self, ctx: Context, d: int) -> bool {
        let lit = self.diseqs[d].reason_lit;
        &&& self.lits.contains(lit)
        &&& ctx.bound(lit.var)
        &&& lit.negated
        &&& ctx.lhs(lit) == self.diseqs[d].lhs.0
        &&& ctx.rhs(lit) == self.diseqs[d].rhs.0
    }

    /// The waiting equality comes from a processed positive literal.
    pub open spec fn input_ok(self, ctx: Context, input: MergeInput) -> bool {
        &&& self.lits.contains(input.reason_lit)
        &&& ctx.bound(input.reason_lit.var)
        &&& !input.reason_lit.negated
        &&& ctx.lhs(input.reason_lit) == input.lhs.0
        &&& ctx.rhs(input.reason_lit) == input.rhs.0
    }

    /// The literal has been taken into account, or waits to be.
    pub open spec fn accounted(self, ctx: Context, lit: Lit) -> bool {
        &&& ctx.bound(lit.var)
        &&& if lit.negated {
            exists|d: int|
                0 <= d < self.diseqs.len() && (#[trigger] self.diseqs[d]).lhs.0 == ctx.lhs(lit)
                    && self.diseqs[d].rhs.0 == ctx.rhs(lit)
        } else {
            ||| self.state.same(ctx.lhs(lit), ctx.rhs(lit))
            ||| self.merges.contains(
                MergeInput {
                    lhs: TermId(ctx.lhs(lit) as u32),
                    rhs: TermId(ctx.rhs(lit) as u32),
                    reason_lit: lit,
                },
            )
        }
    }

    /// Classes are what the edges connect.
    pub open spec fn linked(self) -> bool {
        forall|x: int, y: int|
            0 <= x < self.state.parent.len() && 0 <= y < self.state.parent.len() ==> (
            #[trigger] connected(self.edges, every(), self.edges.len() as int, x, y)
                <==> self.state.same(x, y))
    }

    /// The state is consistent, and everything in it follows from the processed literals.
    pub open spec fn ok(self, ctx: Context) -> bool {
        &&& self.state.ok()
        &&& self.state.parent.len() == ctx.terms.len()
        &&& edges_in_range(self.edges, ctx.terms.len())
        &&& forest(self.edges)
        &&& self.edges.len() + self.state.class_count() == ctx.terms.len()
        &&& self.linked()
        &&& forall|e: int| 0 <= e < self.edges.len() ==> #[trigger] self.justified(ctx, e)
        &&& forall|key: Seq<u32>| #[trigger]
            self.table.contains_key(key) ==> self.entry_sound(ctx, key)
        &&& forall|t: int|
            0 <= t < ctx.terms.len() && ctx.terms[t].args.len() > 0 ==> self.repairs.contains(
                TermId(t as u32),
            ) || #[trigger] self.settled(ctx, t)
        &&& forall|d: int| 0 <= d < self.diseqs.len() ==> #[trigger] self.asserted(ctx, d)
        &&& forall|i: int|
            0 <= i < self.merges.len() ==> self.input_ok(ctx, #[trigger] self.merges[i])
        &&& forall|i: int| 0 <= i < self.lits.len() ==> self.accounted(ctx, #[trigger] self.lits[i])
        &&& forall|i: int|
            0 <= i < self.repairs.len() ==> (#[trigger] self.repairs[i]).0 < ctx.terms.len()
    }

    /// The sides of every active disequality are in different classes.
    pub open spec fn apart(self) -> bool {
        forall|d: int|
            0 <= d < self.diseqs.len() ==> !self.state.same(
                (#[trigger] self.diseqs[d]).lhs.0 as int,
                self.diseqs[d].rhs.0 as int,
            )
    }

    /// No work is left.
    pub open spec fn idle(self) -> bool {
        self.repairs.len() == 0 && self.merges.len() == 0
    }

    /// A consistent state without work left and without violated disequality is the equality of some
    /// interpretation, under which all processed literals are true.
    pub proof fn lemma_model(self, ctx: Context) -> (m: Interp)
        requires
            ctx.ok(),
            self.ok(ctx),
            self.apart(),
            self.idle(),
        ensures
            forall|i: int| 0 <= i < self.lits.len() ==> ctx.lit_holds(m, #[trigger] self.lits[i]),
            forall|x: int, y: int|
                0 <= x < ctx.terms.len() && 0 <= y < ctx.terms.len() && #[trigger] value(
                    ctx.terms,
                    m,
                    x,
                ) == #[trigger] value(ctx.terms, m, y) ==> self.state.same(x, y),
    {
        let set = |t: int| 0 <= t < ctx.terms.len();
        let label = |t: int| self.state.root(t);
        assert(congruence_on(ctx.terms, set, label)) by {
            assert forall|s: int, t: int|
                0 <= s < ctx.terms.len() && 0 <= t < ctx.terms.len() && set(s) && set(t)
                    && #[trigger] same_signature(ctx.terms, label, s, t) implies label(s)
                == label(t) by {
                if ctx.terms[s].args.len() == 0 {
                    assert(ctx.terms[s] =~= ctx.terms[t]);
                } else {
                    assert(self.settled(ctx, s));
                    assert(self.settled(ctx, t));
                    assert forall|k: int| 0 <= k < ctx.terms[s].args.len() implies self.state.root(
                        #[trigger] ctx.terms[s].args[k],
                    ) == self.state.root(ctx.terms[t].args[k]) by {
                        assert(label(ctx.terms[s].args[k]) == label(ctx.terms[t].args[k]));
                    }
                    assert(self.signature(ctx, s) =~= self.signature(ctx, t));
                }
            }
        }
        let m = label_interp(ctx.terms, set, label);
        assert forall|i: int| 0 <= i < self.lits.len() implies ctx.lit_holds(
            m,
            #[trigger] self.lits[i],
        ) by {
            let lit = self.lits[i];
            assert(self.accounted(ctx, lit));
            let l = ctx.lhs(lit);
            let r = ctx.rhs(lit);
            assert(ctx.var_atoms[lit.var.0 as int] is Some);
            assert(0 <= ctx.atom(lit) < ctx.atoms.len());
            assert(ctx.atoms[ctx.atom(lit)].0.0 == l);
            lemma_label_interp(ctx.terms, set, label, l);
            lemma_label_interp(ctx.terms, set, label, r);
            if lit.negated {
                let d = choose|d: int|
                    0 <= d < self.diseqs.len() && (#[trigger] self.diseqs[d]).lhs.0 == l
                        && self.diseqs[d].rhs.0 == r;
                assert(!self.state.same(self.diseqs[d].lhs.0 as int, self.diseqs[d].rhs.0 as int));
            }
        }
        assert forall|x: int, y: int|
            0 <= x < ctx.terms.len() && 0 <= y < ctx.terms.len() && #[trigger] value(
                ctx.terms,
                m,
                x,
            ) == #[trigger] value(ctx.terms, m, y) implies self.state.same(x, y) by {
            lemma_label_interp(ctx.terms, set, label, x);
            lemma_label_interp(ctx.terms, set, label, y);
        }
        m
    }

    /// The table has no other entry for a current signature than one whose owner has that signature.
    pub proof fn lemma_entry_current(self, ctx: Context, t: int)
        requires
            ctx.ok(),
            self.ok(ctx),
            0 <= t < ctx.terms.len(),
            self.table.contains_key(self.signature(ctx, t)),
        ensures
            ({
                let o = self.table[self.signature(ctx, t)] as int;
                &&& 0 <= o < ctx.terms.len()
                &&& ctx.terms[o].fun == ctx.terms[t].fun
                &&& ctx.terms[o].args.len() == ctx.terms[t].args.len()
                &&& forall|k: int|
                    0 <= k < ctx.terms[t].args.len() ==> self.state.same(
                        ctx.terms[o].args[k],
                        #[trigger] ctx.terms[t].args[k],
                    )
            }),
    {
        let key = self.signature(ctx, t);
        assert(self.entry_sound(ctx, key));
        let o = self.table[key] as int;
        assert(key[0] == ctx.terms[t].fun);
        assert forall|k: int| 0 <= k < ctx.terms[t].args.len() implies self.state.same(
            ctx.terms[o].args[k],
            #[trigger] ctx.terms[t].args[k],
        ) by {
            let arg = ctx.terms[t].args[k];
            self.state.lemma_root(arg);
            assert(key[1 + k] == self.state.root(arg));
            assert(self.arg_known(ctx, key, k));
        }
    }

    /// `new` is this state after the class of representative `absorbed` has been joined to that of
    /// `survivor` along one more edge, with the applications on its members queued.
    pub open spec fn merge_step(
        self,
        ctx: Context,
        new: Core,
        absorbed: int,
        survivor: int,
    ) -> bool {
        &&& new.state.ok()
        &&& new.state.parent.len() == ctx.terms.len()
        &&& new.state.class_count() == self.state.class_count() - 1
        &&& forall|t: int|
            0 <= t < ctx.terms.len() ==> #[trigger] new.state.root(t) == if self.state.root(t)
                == absorbed {
                survivor
            } else {
                self.state.root(t)
            }
        &&& new.edges.len() == self.edges.len() + 1
        &&& new.edges.drop_last() == self.edges
        &&& new.edges.last().lhs.0 < ctx.terms.len()
        &&& new.edges.last().rhs.0 < ctx.terms.len()
        &&& absorbed != survivor
        &&& {
            let l = self.state.root(new.edges.last().lhs.0 as int);
            let r = self.state.root(new.edges.last().rhs.0 as int);
            ||| l == absorbed && r == survivor
            ||| l == survivor && r == absorbed
        }
        &&& new.table == self.table
        &&& new.diseqs == self.diseqs
        &&& new.lits == self.lits
        &&& new.merges == self.merges
        &&& new.justified(ctx, self.edges.len() as int)
        &&& forall|i: int|
            0 <= i < self.repairs.len() ==> new.repairs.contains(#[trigger] self.repairs[i])
        &&& forall|i: int|
            0 <= i < new.repairs.len() ==> (#[trigger] new.repairs[i]).0 < ctx.terms.len()
        &&& forall|p: int, k: int|
            0 <= p < ctx.terms.len() && 0 <= k < ctx.terms[p].args.len() && self.state.root(
                #[trigger] ctx.terms[p].args[k],
            ) == absorbed ==> new.repairs.contains(TermId(p as u32))
    }

    proof fn lemma_merge_linked(self, ctx: Context, new: Core, absorbed: int, survivor: int)
        requires
            self.ok(ctx),
            self.merge_step(ctx, new, absorbed, survivor),
        ensures
            new.linked(),
    {
        let n = self.edges.len() as int;
        let lhs = new.edges.last().lhs.0 as int;
        let rhs = new.edges.last().rhs.0 as int;
        assert(new.edges[n] == new.edges.last());
        assert forall|e: int| 0 <= e < n implies self.edges[e] == new.edges[e] by {
            assert(new.edges.drop_last()[e] == new.edges[e]);
        }
        assert forall|x: int, y: int|
            0 <= x < new.state.parent.len() && 0 <= y < new.state.parent.len() implies (
        #[trigger] connected(new.edges, every(), new.edges.len() as int, x, y)
            <==> new.state.same(x, y)) by {
            lemma_connected_prefix(self.edges, new.edges, every(), n, x, y);
            lemma_connected_prefix(self.edges, new.edges, every(), n, x, lhs);
            lemma_connected_prefix(self.edges, new.edges, every(), n, rhs, y);
            lemma_connected_prefix(self.edges, new.edges, every(), n, x, rhs);
            lemma_connected_prefix(self.edges, new.edges, every(), n, lhs, y);
            assert(connected(self.edges, every(), n, x, y) <==> self.state.same(x, y));
            assert(connected(self.edges, every(), n, x, lhs) <==> self.state.same(x, lhs));
            assert(connected(self.edges, every(), n, rhs, y) <==> self.state.same(rhs, y));
            assert(connected(self.edges, every(), n, x, rhs) <==> self.state.same(x, rhs));
            assert(connected(self.edges, every(), n, lhs, y) <==> self.state.same(lhs, y));
            assert(every()(n));
        }
    }

    proof fn lemma_merge_edges(self, ctx: Context, new: Core, absorbed: int, survivor: int)
        requires
            self.ok(ctx),
            self.merge_step(ctx, new, absorbed, survivor),
        ensures
            forest(new.edges),
            edges_in_range(new.edges, ctx.terms.len()),
            forall|e: int| 0 <= e < new.edges.len() ==> #[trigger] new.justified(ctx, e),
    {
        let n = self.edges.len() as int;
        let lhs = new.edges.last().lhs.0 as int;
        let rhs = new.edges.last().rhs.0 as int;
        assert forall|e: int| 0 <= e < n implies self.edges[e] == new.edges[e] by {
            assert(new.edges.drop_last()[e] == new.edges[e]);
        }
        assert forall|e: int| 0 <= e < new.edges.len() implies !connected(
            new.edges,
            every(),
            e,
            (#[trigger] new.edges[e]).lhs.0 as int,
            new.edges[e].rhs.0 as int,
        ) by {
            let l = new.edges[e].lhs.0 as int;
            let r = new.edges[e].rhs.0 as int;
            lemma_connected_prefix(self.edges, new.edges, every(), e, l, r);
            if e < n {
                assert(new.edges[e] == self.edges[e]);
            } else {
                assert(connected(self.edges, every(), n, lhs, rhs) <==> self.state.same(lhs, rhs));
            }
        }
        assert forall|e: int| 0 <= e < new.edges.len() implies (#[trigger] new.edges[e]).lhs.0
            < ctx.terms.len() && new.edges[e].rhs.0 < ctx.terms.len() && new.edges[e].lhs
            != new.edges[e].rhs by {
            if e < n {
                assert(new.edges[e] == self.edges[e]);
            }
        }
        assert forall|e: int| 0 <= e < new.edges.len() implies #[trigger] new.justified(ctx, e) by {
            if e < n {
                assert(self.justified(ctx, e));
                assert(new.edges[e] == self.edges[e]);
                match new.edges[e].reason {
                    MergeReason::Congruence { left_parent, right_parent } => {
                        let l = left_parent.0 as int;
                        let r = right_parent.0 as int;
                        assert forall|k: int| 0 <= k < ctx.terms[l].args.len() implies connected(
                            new.edges,
                            every(),
                            e,
                            #[trigger] ctx.terms[l].args[k],
                            ctx.terms[r].args[k],
                        ) by {
                            lemma_connected_prefix(
                                self.edges,
                                new.edges,
                                every(),
                                e,
                                ctx.terms[l].args[k],
                                ctx.terms[r].args[k],
                            );
                        }
                    },
                    _ => {},
                }
            }
        }
    }

    proof fn lemma_merge_table(self, ctx: Context, new: Core, absorbed: int, survivor: int)
        requires
            ctx.ok(),
            self.ok(ctx),
            self.merge_step(ctx, new, absorbed, survivor),
        ensures
            forall|key: Seq<u32>| #[trigger]
                new.table.contains_key(key) ==> new.entry_sound(ctx, key),
            forall|t: int|
                0 <= t < ctx.terms.len() && ctx.terms[t].args.len() > 0 ==> new.repairs.contains(
                    TermId(t as u32),
                ) || #[trigger] new.settled(ctx, t),
    {
        assert forall|key: Seq<u32>| #[trigger] new.table.contains_key(key) implies new.entry_sound(
            ctx,
            key,
        ) by {
            assert(self.entry_sound(ctx, key));
            let owner = self.table[key] as int;
            assert forall|k: int|
                0 <= k < ctx.terms[owner].args.len() implies #[trigger] new.arg_known(
                ctx,
                key,
                k,
            ) by {
                assert(self.arg_known(ctx, key, k));
                assert(0 <= ctx.terms[owner].args[k] < ctx.terms.len());
            }
        }
        assert forall|t: int|
            0 <= t < ctx.terms.len() && ctx.terms[t].args.len() > 0 implies new.repairs.contains(
            TermId(t as u32),
        ) || #[trigger] new.settled(ctx, t) by {
            if self.repairs.contains(TermId(t as u32)) {
                let i = choose|i: int|
                    0 <= i < self.repairs.len() && self.repairs[i] == TermId(t as u32);
                assert(new.repairs.contains(self.repairs[i]));
            } else if !new.repairs.contains(TermId(t as u32)) {
                assert(self.settled(ctx, t));
                assert forall|k: int| 0 <= k < ctx.terms[t].args.len() implies new.state.root(
                    #[trigger] ctx.terms[t].args[k],
                ) == self.state.root(ctx.terms[t].args[k]) by {}
                assert(new.signature(ctx, t) =~= self.signature(ctx, t));
                assert(new.state.same(self.table[self.signature(ctx, t)] as int, t));
            }
        }
    }

    /// Merging the classes of two terms for a justified reason keeps the state consistent, once the
    /// applications on members of the absorbed class have been queued.
    pub proof fn lemma_merge(self, ctx: Context, new: Core, absorbed: int, survivor: int)
        requires
            ctx.ok(),
            self.ok(ctx),
            self.merge_step(ctx, new, absorbed, survivor),
        ensures
            new.ok(ctx),
    {
        self.lemma_merge_linked(ctx, new, absorbed, survivor);
        self.lemma_merge_edges(ctx, new, absorbed, survivor);
        self.lemma_merge_table(ctx, new, absorbed, survivor);
        assert forall|d: int| 0 <= d < new.diseqs.len() implies #[trigger] new.asserted(ctx, d) by {
            assert(self.asserted(ctx, d));
        }
        assert forall|i: int| 0 <= i < new.merges.len() implies new.input_ok(
            ctx,
            #[trigger] new.merges[i],
        ) by {
            assert(self.input_ok(ctx, self.merges[i]));
        }
        assert forall|i: int| 0 <= i < new.lits.len() implies new.accounted(
            ctx,
            #[trigger] new.lits[i],
        ) by {
            let lit = self.lits[i];
            assert(self.accounted(ctx, lit));
            assert(ctx.var_atoms[lit.var.0 as int] is Some);
            assert(0 <= ctx.atom(lit) < ctx.atoms.len());
            assert(ctx.atoms[ctx.atom(lit)].0.0 < ctx.terms.len());
            if lit.negated {
                let d = choose|d: int|
                    0 <= d < self.diseqs.len() && (#[trigger] self.diseqs[d]).lhs.0 == ctx.lhs(lit)
                        && self.diseqs[d].rhs.0 == ctx.rhs(lit);
                assert(new.diseqs[d].lhs.0 == ctx.lhs(lit));
            }
        }
    }

    /// Adding a signature that is not in the table yet, with the term itself as owner, settles it.
    pub proof fn lemma_insert(self, ctx: Context, t: int)
        requires
            ctx.ok(),
            self.ok(ctx),
            0 <= t < ctx.terms.len(),
            !self.table.contains_key(self.signature(ctx, t)),
        ensures
            (Core { table: self.table.insert(self.signature(ctx, t), t as u32), ..self }).ok(ctx),
            (Core { table: self.table.insert(self.signature(ctx, t), t as u32), ..self }).settled(
                ctx,
                t,
            ),
    {
        let key = self.signature(ctx, t);
        let new = Core { table: self.table.insert(key, t as u32), ..self };
        assert forall|x: int| new.signature(ctx, x) == self.signature(ctx, x) by {}
        assert forall|k: Seq<u32>| #[trigger] new.table.contains_key(k) implies new.entry_sound(
            ctx,
            k,
        ) by {
            if k == key {
                assert forall|i: int|
                    0 <= i < ctx.terms[t].args.len() implies #[trigger] new.arg_known(
                    ctx,
                    key,
                    i,
                ) by {
                    let arg = ctx.terms[t].args[i];
                    self.state.lemma_root(arg);
                    assert(key[1 + i] == self.state.root(arg));
                }
            } else {
                assert(self.table.contains_key(k));
                assert(self.entry_sound(ctx, k));
                let owner = self.table[k] as int;
                assert forall|i: int|
                    0 <= i < ctx.terms[owner].args.len() implies #[trigger] new.arg_known(
                    ctx,
                    k,
                    i,
                ) by {
                    assert(self.arg_known(ctx, k, i));
                }
            }
        }
        assert forall|x: int|
            0 <= x < ctx.terms.len() && ctx.terms[x].args.len() > 0 implies new.repairs.contains(
            TermId(x as u32),
        ) || #[trigger] new.settled(ctx, x) by {
            if !self.repairs.contains(TermId(x as u32)) {
                assert(self.settled(ctx, x));
                assert(self.signature(ctx, x) != key);
            }
        }
        assert forall|e: int| 0 <= e < new.edges.len() implies #[trigger] new.justified(ctx, e) by {
            assert(self.justified(ctx, e));
        }
        assert forall|d: int| 0 <= d < new.diseqs.len() implies #[trigger] new.asserted(ctx, d) by {
            assert(self.asserted(ctx, d));
        }
        assert forall|i: int| 0 <= i < new.merges.len() implies new.input_ok(
            ctx,
            #[trigger] new.merges[i],
        ) by {
            assert(self.input_ok(ctx, self.merges[i]));
        }
        assert forall|i: int| 0 <= i < new.lits.len() implies new.accounted(
            ctx,
            #[trigger] new.lits[i],
        ) by {
            let lit = self.lits[i];
            assert(self.accounted(ctx, lit));
            if lit.negated {
                let d = choose|d: int|
                    0 <= d < self.diseqs.len() && (#[trigger] self.diseqs[d]).lhs.0 == ctx.lhs(lit)
                        && self.diseqs[d].rhs.0 == ctx.rhs(lit);
                assert(new.diseqs[d].lhs.0 == ctx.lhs(lit));
            }
        }
        assert(new.linked()) by {
            assert forall|x: int, y: int|
                0 <= x < new.state.parent.len() && 0 <= y < new.state.parent.len() implies (
            #[trigger] connected(new.edges, every(), new.edges.len() as int, x, y)
                <==> new.state.same(x, y)) by {
                assert(connected(self.edges, every(), self.edges.len() as int, x, y)
                    <==> self.state.same(x, y));
            }
        }
    }

    /// Changing the queues and appending processed literals and disequalities keeps the state
    /// consistent as long as everything is accounted for.
    pub proof fn lemma_requeue(self, ctx: Context, new: Core)
        requires
            ctx.ok(),
            self.ok(ctx),
            new.state == self.state,
            new.table == self.table,
            new.edges == self.edges,
            forall|lit: Lit| self.lits.contains(lit) ==> #[trigger] new.lits.contains(lit),
            self.diseqs.len() <= new.diseqs.len(),
            forall|d: int| 0 <= d < self.diseqs.len() ==> new.diseqs[d] == self.diseqs[d],
            forall|d: int|
                self.diseqs.len() <= d < new.diseqs.len() ==> #[trigger] new.asserted(ctx, d),
            forall|i: int|
                0 <= i < new.merges.len() ==> self.merges.contains(#[trigger] new.merges[i])
                    || new.input_ok(ctx, new.merges[i]),
            forall|i: int|
                0 <= i < new.lits.len() ==> new.accounted(ctx, #[trigger] new.lits[i]),
            forall|i: int|
                0 <= i < new.repairs.len() ==> (#[trigger] new.repairs[i]).0 < ctx.terms.len(),
            forall|t: int|
                0 <= t < ctx.terms.len() && ctx.terms[t].args.len() > 0 && self.repairs.contains(
                    TermId(t as u32),
                ) ==> new.repairs.contains(TermId(t as u32)) || #[trigger] self.settled(ctx, t),
        ensures
            new.ok(ctx),
    {
        assert forall|x: int| new.signature(ctx, x) == self.signature(ctx, x) by {}
        assert forall|k: Seq<u32>| #[trigger] new.table.contains_key(k) implies new.entry_sound(
            ctx,
            k,
        ) by {
            assert(self.entry_sound(ctx, k));
            let owner = self.table[k] as int;
            assert forall|i: int|
                0 <= i < ctx.terms[owner].args.len() implies #[trigger] new.arg_known(
                ctx,
                k,
                i,
            ) by {
                assert(self.arg_known(ctx, k, i));
            }
        }
        assert forall|x: int|
            0 <= x < ctx.terms.len() && ctx.terms[x].args.len() > 0 implies new.repairs.contains(
            TermId(x as u32),
        ) || #[trigger] new.settled(ctx, x) by {
            if !new.repairs.contains(TermId(x as u32)) {
                assert(self.settled(ctx, x));
            }
        }
        assert forall|e: int| 0 <= e < new.edges.len() implies #[trigger] new.justified(ctx, e) by {
            assert(self.justified(ctx, e));
            match new.edges[e].reason {
                MergeReason::InputEq { reason_lit } => {
                    assert(self.lits.contains(reason_lit));
                },
                _ => {},
            }
        }
        assert forall|d: int| 0 <= d < new.diseqs.len() implies #[trigger] new.asserted(ctx, d) by {
            if d < self.diseqs.len() {
                assert(self.asserted(ctx, d));
                assert(new.lits.contains(self.diseqs[d].reason_lit));
            }
        }
        assert forall|i: int| 0 <= i < new.merges.len() implies new.input_ok(
            ctx,
            #[trigger] new.merges[i],
        ) by {
            if self.merges.contains(new.merges[i]) {
                let j = choose|j: int| 0 <= j < self.merges.len() && self.merges[j] == new.merges[i];
                assert(self.input_ok(ctx, self.merges[j]));
                assert(new.lits.contains(self.merges[j].reason_lit));
            }
        }
        assert(new.linked()) by {
            assert forall|x: int, y: int|
                0 <= x < new.state.parent.len() && 0 <= y < new.state.parent.len() implies (
            #[trigger] connected(new.edges, every(), new.edges.len() as int, x, y)
                <==> new.state.same(x, y)) by {
                assert(connected(self.edges, every(), self.edges.len() as int, x, y)
                    <==> self.state.same(x, y));
            }
        }
    }
}

} // verus!
