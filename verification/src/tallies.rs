//! What holds of counts of events, clauses, literals and objects.

use crate::arena::{live, offset, waste, Object, VarHeader};
use crate::euf::ids::TermId;
use crate::euf::registry::ordered;
use crate::euf::theory::{clauses_of, event_counted, literals_of, Event};
use crate::sat::{clause_words, long_clauses, sat_counted, Lit, TheoryClause, TheoryClauseKind};
use crate::sums::sum_to;
use crate::telemetry::{counted, EufCounter, EufCounters, SatCounter, SatCounters};
use vstd::prelude::*;

verus! {

/// A counter grows by as many events as happen, but not past its largest value, which it then keeps.
pub proof fn lemma_counted(before: u64, events: nat, more: nat)
    ensures
        before + events <= u64::MAX ==> counted(before, events as int) == before + events,
        before + events >= u64::MAX ==> counted(before, events as int) == u64::MAX,
        counted(counted(before, events as int), more as int) == counted(
            before,
            (events + more) as int,
        ),
{
}

/// The counter that an event belongs to.
pub open spec fn counter_of(event: Event) -> EufCounter {
    match event {
        Event::InputEquality => EufCounter::InputEqualities,
        Event::InputDisequality => EufCounter::InputDisequalities,
        Event::CongruenceMerge => EufCounter::CongruenceMerges,
        Event::Propagation => EufCounter::TheoryPropagations,
        Event::Conflict => EufCounter::TheoryConflicts,
    }
}

/// An event raises its own counter by one and leaves all others as they are.
pub proof fn lemma_event_counted(counters: EufCounters, event: Event, field: EufCounter)
    ensures
        event_counted(counters, event).get(field) == if field == counter_of(event)
            && counters.get(field) < u64::MAX {
            counters.get(field) + 1
        } else {
            counters.get(field) as int
        },
{
}

/// A search moves only the counters of decisions, propagations and conflicts.
pub proof fn lemma_sat_counted(
    counters: SatCounters,
    decisions: nat,
    propagations: nat,
    conflicts: nat,
    field: SatCounter,
)
    ensures
        ({
            let after = sat_counted(counters, decisions, propagations, conflicts);
            &&& field == SatCounter::Decisions && counters.get(field) + decisions <= u64::MAX
                ==> after.get(field) == counters.get(field) + decisions
            &&& field == SatCounter::Propagations && counters.get(field) + propagations <= u64::MAX
                ==> after.get(field) == counters.get(field) + propagations
            &&& field == SatCounter::Conflicts && counters.get(field) + conflicts <= u64::MAX
                ==> after.get(field) == counters.get(field) + conflicts
            &&& field != SatCounter::Decisions && field != SatCounter::Propagations && field
                != SatCounter::Conflicts ==> after.get(field) == counters.get(field)
        }),
{
}

/// The clauses of a kind, and the literals of a sign, are counted one by one.
pub proof fn lemma_clauses_counted(clauses: Seq<TheoryClause>, kind: TheoryClauseKind)
    ensures
        clauses_of(clauses, kind) == clauses.filter(|c: TheoryClause| c.kind == kind).len(),
    decreases clauses.len(),
{
    reveal(Seq::filter);
    if clauses.len() > 0 {
        lemma_clauses_counted(clauses.drop_last(), kind);
    }
}

/// The literals of a sign are counted one by one.
pub proof fn lemma_literals_counted(lits: Seq<Lit>, negated: bool)
    ensures
        literals_of(lits, negated) == lits.filter(|l: Lit| l.negated == negated).len(),
    decreases lits.len(),
{
    reveal(Seq::filter);
    let keep = |l: Lit| l.negated == negated;
    if lits.len() > 0 {
        lemma_literals_counted(lits.skip(1), negated);
        let first = seq![lits[0]];
        assert(lits =~= first + lits.skip(1));
        Seq::filter_distributes_over_add(first, lits.skip(1), keep);
        assert(first.drop_last() =~= Seq::<Lit>::empty());
        assert(Seq::<Lit>::empty().filter(keep) =~= Seq::<Lit>::empty());
        assert(first.last() == lits[0]);
        assert(first.filter(keep).len() == if keep(lits[0]) {
            1nat
        } else {
            0
        });
    }
}

/// The clauses with more than one literal are counted one by one, and their literals are added up with
/// those of all others.
pub proof fn lemma_clause_store(clauses: Seq<Seq<Lit>>)
    ensures
        long_clauses(clauses) == clauses.filter(|c: Seq<Lit>| c.len() > 1).len(),
        clause_words(clauses) == sum_to(
            clauses.map_values(|c: Seq<Lit>| c.len()),
            clauses.len() as int,
        ),
    decreases clauses.len(),
{
    reveal(Seq::filter);
    if clauses.len() > 0 {
        let less = clauses.drop_last();
        lemma_clause_store(less);
        let lens = clauses.map_values(|c: Seq<Lit>| c.len());
        let fewer = less.map_values(|c: Seq<Lit>| c.len());
        lemma_sum_prefix(lens, fewer, less.len() as int);
        assert(lens[lens.len() - 1] == clauses.last().len());
    }
}

proof fn lemma_sum_prefix(a: Seq<nat>, b: Seq<nat>, n: int)
    requires
        n <= a.len(),
        n <= b.len(),
        forall|i: int| 0 <= i < n ==> #[trigger] a[i] == b[i],
    ensures
        sum_to(a, n) == sum_to(b, n),
    decreases n,
{
    if n > 0 {
        lemma_sum_prefix(a, b, n - 1);
        assert(a[n - 1] == b[n - 1]);
    }
}

/// An equality is the same whichever side is written first, and names both sides.
pub proof fn lemma_ordered(lhs: TermId, rhs: TermId)
    ensures
        ordered(lhs, rhs) == ordered(rhs, lhs),
        ordered(lhs, rhs).0.0 <= ordered(lhs, rhs).1.0,
        ordered(lhs, rhs) == (lhs, rhs) || ordered(lhs, rhs) == (rhs, lhs),
{
}

/// The live objects are those that were not removed, in order; the words of the removed ones are what
/// compaction gives back.
pub proof fn lemma_live<H: VarHeader, E>(objects: Seq<Object<H, E>>)
    ensures
        live(objects, objects.len()) == objects.filter(|o: Object<H, E>| !o.header.gone()),
        offset(live(objects, objects.len()), live(objects, objects.len()).len()) + waste(
            objects,
            objects.len(),
        ) == offset(objects, objects.len()),
{
    lemma_live_to(objects, objects.len());
    assert(objects.take(objects.len() as int) =~= objects);
}

proof fn lemma_live_to<H: VarHeader, E>(objects: Seq<Object<H, E>>, n: nat)
    requires
        n <= objects.len(),
    ensures
        live(objects, n) == objects.take(n as int).filter(|o: Object<H, E>| !o.header.gone()),
        offset(live(objects, n), live(objects, n).len()) + waste(objects, n) == offset(objects, n),
    decreases n,
{
    reveal(Seq::filter);
    if n > 0 {
        lemma_live_to(objects, (n - 1) as nat);
        let more = objects.take(n as int);
        assert(more.drop_last() =~= objects.take(n - 1));
        assert(more.last() == objects[n - 1]);
        let before = live(objects, (n - 1) as nat);
        if !objects[n - 1].header.gone() {
            lemma_offset_same(before, before.push(objects[n - 1]), before.len());
        }
    } else {
        assert(objects.take(0) =~= Seq::empty());
    }
}

proof fn lemma_offset_same<H: VarHeader, E>(
    a: Seq<Object<H, E>>,
    b: Seq<Object<H, E>>,
    n: nat,
)
    requires
        n <= a.len(),
        n <= b.len(),
        forall|i: int| 0 <= i < n ==> #[trigger] a[i] == b[i],
    ensures
        offset(a, n) == offset(b, n),
    decreases n,
{
    if n > 0 {
        lemma_offset_same(a, b, (n - 1) as nat);
        assert(a[n - 1] == b[n - 1]);
    }
}

} // verus!
