//! What holds of timings, tallies and the texts of counts.

use crate::harness::benchmark::{
    all_wf, distribution_of, measured_times, nanos_elapsed, nearest_rank, shorter_first,
    total_nanos,
};
use crate::harness::compare::{category_change, detail_change};
use crate::harness::model::{
    category_label, lemma_label_width, occurrences, CaseOutcome, Elapsed, OutcomeCategory,
    OutcomeStats, LABEL_WIDTH,
};
use crate::harness::parent::signed_text;
use crate::harness::render::{breakdown, count_text, grouped, left_aligned, right_aligned, spaces};
use crate::order::{inserted, lemma_slot, lemma_sorted, ranks, slot, sorted, sorted_to};
use crate::strings::begins;
use crate::text::{all_digits, decimal_text, lemma_decimal_injective};
use crate::wording::lemma_decimal_read_back;
use vstd::prelude::*;

verus! {

/// How many spans of a list are not longer than this one.
pub open spec fn at_most(timings: Seq<Elapsed>, value: Elapsed) -> nat {
    timings.filter(|e: Elapsed| e.total() <= value.total()).len()
}

/// How many spans of a list are shorter than this one.
pub open spec fn below(timings: Seq<Elapsed>, value: Elapsed) -> nat {
    timings.filter(|e: Elapsed| e.total() < value.total()).len()
}

/// The span is the nearest-rank percentile of a list: that share of all spans is not longer, and less
/// than that share is shorter. It occurs in the list.
pub open spec fn is_percentile(timings: Seq<Elapsed>, value: Elapsed, share: nat) -> bool {
    &&& timings.contains(value)
    &&& 100 * at_most(timings, value) >= share * timings.len()
    &&& 100 * below(timings, value) < share * timings.len()
}

proof fn lemma_kept_inserted<A>(
    list: Seq<A>,
    x: A,
    before: spec_fn(A, A) -> bool,
    keep: spec_fn(A) -> bool,
)
    ensures
        inserted(list, x, before).filter(keep).len() == list.filter(keep).len() + if keep(x) {
            1nat
        } else {
            0
        },
{
    reveal(Seq::filter);
    lemma_slot(list, x, before, list.len());
    let at = slot(list, x, before, list.len()) as int;
    let first = list.take(at);
    let rest = list.skip(at);
    assert(inserted(list, x, before) =~= first.push(x) + rest);
    assert(list =~= first + rest);
    Seq::filter_distributes_over_add(first.push(x), rest, keep);
    Seq::filter_distributes_over_add(first, rest, keep);
    assert(first.push(x).drop_last() =~= first);
}

proof fn lemma_kept_sorted<A>(
    list: Seq<A>,
    before: spec_fn(A, A) -> bool,
    keep: spec_fn(A) -> bool,
    n: nat,
)
    requires
        n <= list.len(),
    ensures
        sorted_to(list, before, n).filter(keep).len() == list.take(n as int).filter(keep).len(),
    decreases n,
{
    reveal(Seq::filter);
    if n > 0 {
        lemma_kept_sorted(list, before, keep, (n - 1) as nat);
        lemma_kept_inserted(sorted_to(list, before, (n - 1) as nat), list[n - 1], before, keep);
        let more = list.take(n as int);
        assert(more.drop_last() =~= list.take(n - 1));
        assert(more.last() == list[n - 1]);
    } else {
        assert(list.take(0) =~= Seq::<A>::empty());
    }
}

proof fn lemma_kept_bounds<A>(list: Seq<A>, keep: spec_fn(A) -> bool)
    ensures
        list.filter(keep).len() <= list.len(),
        (forall|i: int| 0 <= i < list.len() ==> keep(#[trigger] list[i])) ==> list.filter(keep).len()
            == list.len(),
        (forall|i: int| 0 <= i < list.len() ==> !keep(#[trigger] list[i])) ==> list.filter(
            keep,
        ).len() == 0,
    decreases list.len(),
{
    reveal(Seq::filter);
    if list.len() > 0 {
        let less = list.drop_last();
        lemma_kept_bounds(less, keep);
        if forall|i: int| 0 <= i < list.len() ==> keep(#[trigger] list[i]) {
            assert(keep(list[list.len() - 1]));
            assert forall|i: int| 0 <= i < less.len() implies keep(#[trigger] less[i]) by {
                assert(less[i] == list[i]);
            }
        }
        if forall|i: int| 0 <= i < list.len() ==> !keep(#[trigger] list[i]) {
            assert(!keep(list[list.len() - 1]));
            assert forall|i: int| 0 <= i < less.len() implies !keep(#[trigger] less[i]) by {
                assert(less[i] == list[i]);
            }
        }
    }
}

proof fn lemma_member(timings: Seq<Elapsed>, i: int)
    requires
        0 <= i < timings.len(),
    ensures
        timings.contains(sorted(timings, shorter_first())[i]),
{
    broadcast use vstd::seq_lib::group_to_multiset_ensures;

    let list = sorted(timings, shorter_first());
    assert(ranks(shorter_first()));
    lemma_sorted(timings, shorter_first(), timings.len());
    assert(timings.take(timings.len() as int) =~= timings);
    assert(list.contains(list[i]));
    assert(list.to_multiset().count(list[i]) > 0);
    assert(timings.to_multiset().count(list[i]) > 0);
}

proof fn lemma_rank_splits(timings: Seq<Elapsed>, share: nat)
    requires
        timings.len() > 0,
        0 < share <= 100,
    ensures
        is_percentile(
            timings,
            sorted(timings, shorter_first())[nearest_rank(timings.len(), share) as int],
            share,
        ),
{
    let n = timings.len();
    let list = sorted(timings, shorter_first());
    let k = nearest_rank(n, share) as int;
    assert(ranks(shorter_first()));
    lemma_sorted(timings, shorter_first(), n);
    crate::harness::benchmark::lemma_percentile_share(n, share);
    assert(share * n <= 100 * n) by (nonlinear_arith)
        requires
            share <= 100,
    ;
    assert(k < n);
    lemma_member(timings, k);
    let value = list[k];
    let most = |e: Elapsed| e.total() <= value.total();
    let fewer = |e: Elapsed| e.total() < value.total();
    lemma_kept_sorted(timings, shorter_first(), most, n);
    lemma_kept_sorted(timings, shorter_first(), fewer, n);
    assert(timings.take(n as int) =~= timings);
    let first = list.take(k + 1);
    let rest = list.skip(k + 1);
    assert(list =~= first + rest);
    Seq::filter_distributes_over_add(first, rest, most);
    assert forall|i: int| 0 <= i < first.len() implies most(#[trigger] first[i]) by {
        assert(first[i] == list[i]);
        if i < k {
            assert(!shorter_first()(list[k], list[i]));
        }
    }
    lemma_kept_bounds(first, most);
    let early = list.take(k);
    let late = list.skip(k);
    assert(list =~= early + late);
    Seq::filter_distributes_over_add(early, late, fewer);
    assert forall|i: int| 0 <= i < late.len() implies !fewer(#[trigger] late[i]) by {
        assert(late[i] == list[k + i]);
        if i > 0 {
            assert(!shorter_first()(list[k + i], list[k]));
        }
    }
    lemma_kept_bounds(late, fewer);
    lemma_kept_bounds(early, fewer);
    assert(at_most(timings, value) >= k + 1);
    assert(below(timings, value) <= k);
}

/// A distribution gives the shortest and the longest timing, and the percentiles that its fields name.
pub proof fn lemma_distribution(timings: Seq<Elapsed>, i: int)
    requires
        0 <= i < timings.len(),
    ensures
        ({
            let d = distribution_of(timings);
            &&& timings.contains(d.min)
            &&& d.min.total() <= timings[i].total()
            &&& is_percentile(timings, d.p25, 25)
            &&& is_percentile(timings, d.median, 50)
            &&& is_percentile(timings, d.p75, 75)
            &&& is_percentile(timings, d.p90, 90)
            &&& is_percentile(timings, d.p99, 99)
            &&& timings.contains(d.max)
            &&& timings[i].total() <= d.max.total()
        }),
{
    broadcast use vstd::seq_lib::group_to_multiset_ensures;

    lemma_rank_splits(timings, 25);
    lemma_rank_splits(timings, 50);
    lemma_rank_splits(timings, 75);
    lemma_rank_splits(timings, 90);
    lemma_rank_splits(timings, 99);
    let n = timings.len();
    lemma_member(timings, 0);
    lemma_member(timings, n - 1);
    let list = sorted(timings, shorter_first());
    assert(ranks(shorter_first()));
    lemma_sorted(timings, shorter_first(), n);
    assert(timings.take(n as int) =~= timings);
    assert(timings.contains(timings[i]));
    assert(timings.to_multiset().count(timings[i]) > 0);
    assert(list.to_multiset().count(timings[i]) > 0);
    assert(list.contains(timings[i]));
    let k = choose|k: int| 0 <= k < list.len() && list[k] == timings[i];
    if k > 0 {
        assert(!shorter_first()(list[k], list[0]));
    }
    if k < n - 1 {
        assert(!shorter_first()(list[n - 1], list[k]));
    }
}

/// The sum of timings is that of one part and of the rest.
pub proof fn lemma_nanos_add(a: Seq<Elapsed>, b: Seq<Elapsed>, x: Elapsed)
    ensures
        total_nanos(a + b, (a + b).len()) == total_nanos(a, a.len()) + total_nanos(b, b.len()),
        total_nanos(seq![x], 1) == x.secs * 1_000_000_000 + x.nanos,
    decreases b.len(),
{
    let both = a + b;
    lemma_nanos_prefix(both, a, a.len());
    lemma_nanos_rest(a, b, b.len());
    assert(total_nanos(seq![x], 0) == 0);
}

proof fn lemma_nanos_prefix(a: Seq<Elapsed>, b: Seq<Elapsed>, n: nat)
    requires
        n <= a.len(),
        n <= b.len(),
        forall|i: int| 0 <= i < n ==> #[trigger] a[i] == b[i],
    ensures
        total_nanos(a, n) == total_nanos(b, n),
    decreases n,
{
    if n > 0 {
        lemma_nanos_prefix(a, b, (n - 1) as nat);
        assert(a[n - 1] == b[n - 1]);
    }
}

proof fn lemma_nanos_rest(a: Seq<Elapsed>, b: Seq<Elapsed>, n: nat)
    requires
        n <= b.len(),
    ensures
        total_nanos(a + b, a.len() + n) == total_nanos(a, a.len()) + total_nanos(b, n),
    decreases n,
{
    if n > 0 {
        lemma_nanos_rest(a, b, (n - 1) as nat);
        assert((a + b)[a.len() + n - 1] == b[n - 1]);
    } else {
        lemma_nanos_prefix(a + b, a, a.len());
    }
}

proof fn lemma_nanos_bounded(timings: Seq<Elapsed>, n: nat)
    requires
        n <= timings.len(),
        all_wf(timings),
    ensures
        total_nanos(timings, n) <= n * (u64::MAX * 1_000_000_000 + 999_999_999),
    decreases n,
{
    let most: nat = (u64::MAX * 1_000_000_000 + 999_999_999) as nat;
    if n > 0 {
        let m: nat = (n - 1) as nat;
        lemma_nanos_bounded(timings, m);
        assert(timings[m as int].wf());
        assert(timings[m as int].total() <= most);
        assert(n * most == m * most + most) by (nonlinear_arith)
            requires
                n == m + 1,
        ;
    }
}

/// The mean is the sum of the timings by their number, rounded down to nanoseconds.
pub proof fn lemma_mean(timings: Seq<Elapsed>)
    requires
        timings.len() > 0,
        all_wf(timings),
    ensures
        ({
            let n = timings.len();
            let mean = distribution_of(timings).mean.total();
            mean * n <= total_nanos(timings, n) < (mean + 1) * n
        }),
{
    let n = timings.len();
    let sum = total_nanos(timings, n);
    let q = sum / n;
    lemma_nanos_bounded(timings, n);
    let most: nat = (u64::MAX * 1_000_000_000 + 999_999_999) as nat;
    assert(q * n <= sum < (q + 1) * n) by (nonlinear_arith)
        requires
            q == sum / n,
            n > 0,
    ;
    assert(q <= most) by (nonlinear_arith)
        requires
            q * n <= n * most,
            n > 0,
    ;
    assert(nanos_elapsed(q).total() == q);
}

/// The measured times are those of the outcomes that did not fail, in order.
pub proof fn lemma_measured(outcomes: Seq<CaseOutcome>, n: nat)
    requires
        n <= outcomes.len(),
    ensures
        measured_times(outcomes, n) == outcomes.take(n as int).filter(
            |o: CaseOutcome|
                o.category == OutcomeCategory::Pass || o.category == OutcomeCategory::NoOracle,
        ).map_values(|o: CaseOutcome| o.total_elapsed),
    decreases n,
{
    reveal(Seq::filter);
    let keep = |o: CaseOutcome|
        o.category == OutcomeCategory::Pass || o.category == OutcomeCategory::NoOracle;
    let time = |o: CaseOutcome| o.total_elapsed;
    if n > 0 {
        lemma_measured(outcomes, (n - 1) as nat);
        let more = outcomes.take(n as int);
        assert(more.drop_last() =~= outcomes.take(n - 1));
        assert(more.last() == outcomes[n - 1]);
        let shorter = outcomes.take(n - 1).filter(keep);
        assert(shorter.push(outcomes[n - 1]).map_values(time) =~= shorter.map_values(time).push(
            outcomes[n - 1].total_elapsed,
        ));
    } else {
        assert(outcomes.take(0).filter(keep) =~= Seq::<CaseOutcome>::empty());
        assert(measured_times(outcomes, 0) =~= outcomes.take(0).filter(keep).map_values(time));
    }
}

/// A tally counts the outcomes of each category, and failures are the outcomes that neither pass nor lack
/// an expected answer.
pub proof fn lemma_tally(
    stats: OutcomeStats,
    categories: Seq<OutcomeCategory>,
    category: OutcomeCategory,
)
    requires
        stats.tallies(categories, categories.len()),
    ensures
        stats.count(category) == categories.filter(|c: OutcomeCategory| c == category).len(),
        stats.done == categories.len(),
        stats.failures() == categories.filter(
            |c: OutcomeCategory| c != OutcomeCategory::Pass && c != OutcomeCategory::NoOracle,
        ).len(),
{
    let n = categories.len();
    assert(categories.take(n as int) =~= categories);
    lemma_occurrences(categories, category, n);
    assert(stats.count(category) == occurrences(categories, category, n));
    lemma_failing(categories, n);
    assert(stats.count(OutcomeCategory::WrongAnswer) == occurrences(
        categories,
        OutcomeCategory::WrongAnswer,
        n,
    ));
    assert(stats.count(OutcomeCategory::ParseError) == occurrences(
        categories,
        OutcomeCategory::ParseError,
        n,
    ));
    assert(stats.count(OutcomeCategory::Timeout) == occurrences(
        categories,
        OutcomeCategory::Timeout,
        n,
    ));
    assert(stats.count(OutcomeCategory::Panic) == occurrences(
        categories,
        OutcomeCategory::Panic,
        n,
    ));
    assert(stats.count(OutcomeCategory::Killed) == occurrences(
        categories,
        OutcomeCategory::Killed,
        n,
    ));
    assert(stats.count(OutcomeCategory::HarnessError) == occurrences(
        categories,
        OutcomeCategory::HarnessError,
        n,
    ));
}

proof fn lemma_occurrences(categories: Seq<OutcomeCategory>, category: OutcomeCategory, n: nat)
    requires
        n <= categories.len(),
    ensures
        occurrences(categories, category, n) == categories.take(n as int).filter(
            |c: OutcomeCategory| c == category,
        ).len(),
    decreases n,
{
    reveal(Seq::filter);
    if n > 0 {
        lemma_occurrences(categories, category, (n - 1) as nat);
        let more = categories.take(n as int);
        assert(more.drop_last() =~= categories.take(n - 1));
        assert(more.last() == categories[n - 1]);
    }
}

proof fn lemma_failing(categories: Seq<OutcomeCategory>, n: nat)
    requires
        n <= categories.len(),
    ensures
        occurrences(categories, OutcomeCategory::WrongAnswer, n) + occurrences(
            categories,
            OutcomeCategory::ParseError,
            n,
        ) + occurrences(categories, OutcomeCategory::Timeout, n) + occurrences(
            categories,
            OutcomeCategory::Panic,
            n,
        ) + occurrences(categories, OutcomeCategory::Killed, n) + occurrences(
            categories,
            OutcomeCategory::HarnessError,
            n,
        ) == categories.take(n as int).filter(
            |c: OutcomeCategory| c != OutcomeCategory::Pass && c != OutcomeCategory::NoOracle,
        ).len(),
    decreases n,
{
    reveal(Seq::filter);
    if n > 0 {
        lemma_failing(categories, (n - 1) as nat);
        let more = categories.take(n as int);
        assert(more.drop_last() =~= categories.take(n - 1));
        assert(more.last() == categories[n - 1]);
    }
}

/// The character stands before a group of three, counted from the right.
pub open spec fn before_group(text: Seq<char>, i: int) -> bool {
    (text.len() - i) % 4 == 0
}

proof fn lemma_grouped(digits: Seq<char>)
    requires
        all_digits(digits),
    ensures
        grouped(digits).filter(|c: char| c != ',') == digits,
        forall|i: int| 0 <= i < grouped(digits).len() ==> (#[trigger] grouped(digits)[i] == ','
            <==> before_group(grouped(digits), i)),
        digits.len() > 0 ==> grouped(digits).len() > 0 && grouped(digits)[0] == digits[0],
        grouped(digits).len() % 4 != 0 || digits.len() == 0,
    decreases digits.len(),
{
    reveal(Seq::filter);
    let keep = |c: char| c != ',';
    let text = grouped(digits);
    reveal_strlit(",");
    if digits.len() <= 3 {
        assert forall|i: int| 0 <= i < digits.len() implies keep(#[trigger] digits[i]) by {
            assert('0' <= digits[i] <= '9');
        }
        lemma_all_kept(digits, keep);
    } else {
        let n = digits.len() as int;
        let first = digits.take(n - 3);
        let rest = digits.skip(n - 3);
        assert forall|i: int| 0 <= i < first.len() implies '0' <= (#[trigger] first[i]) <= '9' by {
            assert(first[i] == digits[i]);
        }
        assert forall|i: int| 0 <= i < rest.len() implies keep(#[trigger] rest[i]) by {
            assert(rest[i] == digits[n - 3 + i]);
            assert('0' <= digits[n - 3 + i] <= '9');
        }
        lemma_grouped(first);
        lemma_all_kept(rest, keep);
        let start = grouped(first);
        assert(","@ =~= seq![',']);
        Seq::filter_distributes_over_add(start + ","@, rest, keep);
        Seq::filter_distributes_over_add(start, ","@, keep);
        lemma_kept_bounds(","@, keep);
        assert(","@.filter(keep) =~= Seq::<char>::empty());
        assert(text.filter(keep) =~= digits);
        assert forall|i: int| 0 <= i < text.len() implies (#[trigger] text[i] == ','
            <==> before_group(text, i)) by {
            if i < start.len() {
                assert(text[i] == start[i]);
                assert(start[i] == ',' <==> before_group(start, i));
            } else if i > start.len() {
                assert(text[i] == rest[i - start.len() - 1]);
                assert(keep(rest[i - start.len() - 1]));
            }
        }
    }
}

proof fn lemma_all_kept<A>(list: Seq<A>, keep: spec_fn(A) -> bool)
    requires
        forall|i: int| 0 <= i < list.len() ==> keep(#[trigger] list[i]),
    ensures
        list.filter(keep) == list,
    decreases list.len(),
{
    reveal(Seq::filter);
    if list.len() > 0 {
        let less = list.drop_last();
        assert forall|i: int| 0 <= i < less.len() implies keep(#[trigger] less[i]) by {
            assert(less[i] == list[i]);
        }
        lemma_all_kept(less, keep);
        assert(keep(list[list.len() - 1]));
        assert(less.push(list.last()) =~= list);
    }
}

/// The text of a count is its decimal digits, with a comma before every group of three from the right and
/// nowhere else; it does not start with a comma.
pub proof fn lemma_count_text(n: nat, i: int)
    ensures
        count_text(n).filter(|c: char| c != ',') == decimal_text(n),
        0 <= i < count_text(n).len() ==> (count_text(n)[i] == ',' <==> before_group(
            count_text(n),
            i,
        )),
        count_text(n).len() > 0,
        count_text(n)[0] != ',',
{
    lemma_decimal_read_back(n);
    lemma_grouped(decimal_text(n));
    assert('0' <= decimal_text(n)[0] <= '9');
}

/// The breakdown of failures is empty exactly when nothing failed.
pub proof fn lemma_breakdown(stats: OutcomeStats)
    ensures
        breakdown(stats).len() == 0 <==> stats.failures() == 0,
{
    lemma_count_text(stats.wrong as nat, 0);
    lemma_count_text(stats.parse as nat, 0);
    lemma_count_text(stats.timeout as nat, 0);
    lemma_count_text(stats.panic as nat, 0);
    lemma_count_text(stats.killed as nat, 0);
    lemma_count_text(stats.harness as nat, 0);
}

/// Alignment adds spaces on one side, up to the width and no further.
pub proof fn lemma_aligned(text: Seq<char>, width: nat)
    ensures
        left_aligned(text, width).len() == if text.len() < width {
            width
        } else {
            text.len()
        },
        right_aligned(text, width).len() == left_aligned(text, width).len(),
        left_aligned(text, width).take(text.len() as int) == text,
        right_aligned(text, width).skip(right_aligned(text, width).len() - text.len()) == text,
        forall|i: int|
            text.len() <= i < left_aligned(text, width).len() ==> #[trigger] left_aligned(
                text,
                width,
            )[i] == ' ',
        forall|i: int|
            0 <= i < right_aligned(text, width).len() - text.len() ==> #[trigger] right_aligned(
                text,
                width,
            )[i] == ' ',
{
    assert(left_aligned(text, width).take(text.len() as int) =~= text);
    assert(right_aligned(text, width).skip(right_aligned(text, width).len() - text.len())
        =~= text);
}

/// A category change names its left category first; where the categories differ an arrow and the right
/// category follow, and nothing otherwise.
pub proof fn lemma_category_change(left: OutcomeCategory, right: OutcomeCategory)
    ensures
        ({
            let text = category_change(left, right);
            let a = category_label(left);
            let b = category_label(right);
            &&& begins(text, a)
            &&& left == right <==> text.len() == LABEL_WIDTH
            &&& left != right ==> text.len() == 2 * LABEL_WIDTH + 4 && text.subrange(
                LABEL_WIDTH as int,
                LABEL_WIDTH + 4,
            ) == " -> "@ && begins(text.skip(LABEL_WIDTH + 4), b)
        }),
{
    lemma_label_width();
    reveal_strlit(" -> ");
    let width = LABEL_WIDTH as nat;
    let a = category_label(left);
    let b = category_label(right);
    assert(a.len() <= width && b.len() <= width);
    let text = category_change(left, right);
    assert(text.take(a.len() as int) =~= a);
    if left != right {
        assert(text.subrange(LABEL_WIDTH as int, LABEL_WIDTH + 4) =~= " -> "@);
        let rest = text.skip(LABEL_WIDTH + 4);
        assert(rest.take(b.len() as int) =~= b);
    }
}

/// A change of details is silent exactly when both sides say the same.
pub proof fn lemma_detail_change(left: Option<String>, right: Option<String>)
    ensures
        detail_change(left, right).len() == 0 <==> (left is Some <==> right is Some) && (left
            is Some ==> left->0@ == right->0@),
{
    reveal_strlit(" :: ");
}

/// Different numbers have different texts.
pub proof fn lemma_signed_text(m: int, n: int)
    requires
        signed_text(m) == signed_text(n),
    ensures
        m == n,
{
    reveal_strlit("-");
    let a = if m < 0 {
        (-m) as nat
    } else {
        m as nat
    };
    let b = if n < 0 {
        (-n) as nat
    } else {
        n as nat
    };
    lemma_decimal_read_back(a);
    lemma_decimal_read_back(b);
    assert('0' <= decimal_text(a)[0] <= '9');
    assert('0' <= decimal_text(b)[0] <= '9');
    if m < 0 {
        assert(signed_text(m)[0] == '-');
        assert(signed_text(m).skip(1) =~= decimal_text(a));
    } else {
        assert(signed_text(m)[0] == decimal_text(a)[0]);
    }
    if n < 0 {
        assert(signed_text(n)[0] == '-');
        assert(signed_text(n).skip(1) =~= decimal_text(b));
    } else {
        assert(signed_text(n)[0] == decimal_text(b)[0]);
    }
    lemma_decimal_injective(a, b);
}

} // verus!
