//! Repeated single-case benchmarking: elapsed-time distributions.

use crate::harness::model::{CaseOutcome, Elapsed, OutcomeCategory};
use crate::order::{inserted, lemma_sorted, ordered, ranks, slot, sorted, sorted_to};
use crate::text::{decimal, decimal_text, joined};
use vstd::prelude::*;

verus! {

/// Shorter spans come first.
pub open spec fn shorter_first() -> spec_fn(Elapsed, Elapsed) -> bool {
    |a: Elapsed, b: Elapsed| a.total() < b.total()
}

/// Inserts a span behind all spans that are not longer.
fn insert_elapsed(timings: &mut Vec<Elapsed>, x: Elapsed)
    ensures
        final(timings)@ == inserted(old(timings)@, x, shorter_first()),
{
    let ghost before = timings@;
    let mut at: usize = timings.len();
    while at > 0 && !x.at_least(timings[at - 1])
        invariant
            at <= timings@.len(),
            timings@ == before,
            slot(before, x, shorter_first(), before.len()) == slot(
                before,
                x,
                shorter_first(),
                at as nat,
            ),
        decreases at,
    {
        at -= 1;
    }
    timings.insert(at, x);
}

/// Returns the spans, shorter ones first.
pub fn sort_elapsed(timings: &Vec<Elapsed>) -> (result: Vec<Elapsed>)
    ensures
        result@ == sorted(timings@, shorter_first()),
        ordered(result@, shorter_first()),
        result@.to_multiset() == timings@.to_multiset(),
{
    let mut result: Vec<Elapsed> = Vec::new();
    let mut i: usize = 0;
    while i < timings.len()
        invariant
            0 <= i <= timings@.len(),
            result@ == sorted_to(timings@, shorter_first(), i as nat),
        decreases timings@.len() - i,
    {
        insert_elapsed(&mut result, timings[i]);
        i += 1;
    }
    proof {
        assert(ranks(shorter_first()));
        lemma_sorted(timings@, shorter_first(), timings@.len());
        assert(timings@.take(timings@.len() as int) =~= timings@);
    }
    result
}

/// The position of a percentile: the least position at which at least this share of all positions is
/// reached.
pub open spec fn nearest_rank(len: nat, percentile: nat) -> nat {
    let rank = (len * percentile + 99) / 100;
    if rank == 0 {
        0
    } else {
        (rank - 1) as nat
    }
}

proof fn lemma_nearest_rank(len: nat, percentile: nat)
    requires
        len > 0,
        percentile <= 100,
    ensures
        nearest_rank(len, percentile) < len,
{
    assert(len * percentile <= len * 100) by (nonlinear_arith)
        requires
            percentile <= 100,
    ;
}

/// At least the given share of positions lies up to the percentile's position, and less lies before
/// it.
pub proof fn lemma_percentile_share(len: nat, percentile: nat)
    requires
        0 < percentile <= 100,
        len > 0,
    ensures
        100 * (nearest_rank(len, percentile) + 1) >= percentile * len,
        100 * nearest_rank(len, percentile) < percentile * len,
{
    assert(len * percentile == percentile * len) by (nonlinear_arith);
    assert(len * percentile > 0) by (nonlinear_arith)
        requires
            percentile > 0,
            len > 0,
    ;
}

/// Returns the nearest-rank percentile from sorted timings.
pub fn percentile(timings: &[Elapsed], share: u32) -> (value: Elapsed)
    requires
        timings@.len() > 0,
        share <= 100,
        timings@.len() * 100 <= usize::MAX,
    ensures
        value == timings@[nearest_rank(timings@.len(), share as nat) as int],
{
    proof {
        lemma_nearest_rank(timings@.len(), share as nat);
        assert(timings@.len() * share <= timings@.len() * 100) by (nonlinear_arith)
            requires
                share <= 100,
        ;
    }
    let product: usize = timings.len() * share as usize;
    let whole: usize = product / 100;
    let rank: usize = if product % 100 > 0 {
        whole + 1
    } else {
        whole
    };
    if rank == 0 {
        timings[0]
    } else {
        timings[rank - 1]
    }
}

/// The span of a number of nanoseconds, where its seconds fit.
pub open spec fn nanos_elapsed(nanos: nat) -> Elapsed {
    Elapsed { secs: (nanos / 1_000_000_000) as u64, nanos: (nanos % 1_000_000_000) as u32 }
}

/// Converts an integer nanosecond count into a span.
pub fn duration_from_nanos(nanos: u128) -> (elapsed: Elapsed)
    requires
        nanos / 1_000_000_000 <= u64::MAX,
    ensures
        elapsed == nanos_elapsed(nanos as nat),
        elapsed.wf(),
        elapsed.total() == nanos,
{
    let secs = nanos / 1_000_000_000;
    let subsec_nanos = nanos % 1_000_000_000;
    Elapsed { secs: secs as u64, nanos: subsec_nanos as u32 }
}

/// Percentile distribution for successful measured elapsed times.
#[derive(Debug, Clone, Copy, PartialEq, Eq, Structural)]
pub struct ElapsedDistribution {
    /// Number of successful measured samples.
    pub samples: usize,
    /// Fastest successful run.
    pub min: Elapsed,
    /// 25th percentile using nearest-rank indexing.
    pub p25: Elapsed,
    /// Median using nearest-rank indexing.
    pub median: Elapsed,
    /// 75th percentile using nearest-rank indexing.
    pub p75: Elapsed,
    /// 90th percentile using nearest-rank indexing.
    pub p90: Elapsed,
    /// 99th percentile using nearest-rank indexing.
    pub p99: Elapsed,
    /// Slowest successful run.
    pub max: Elapsed,
    /// Arithmetic mean over all successful runs.
    pub mean: Elapsed,
}

/// The sum of the first `n` spans in nanoseconds.
pub open spec fn total_nanos(timings: Seq<Elapsed>, n: nat) -> nat
    decreases n,
{
    if n == 0 {
        0
    } else {
        total_nanos(timings, (n - 1) as nat) + timings[n - 1].total()
    }
}

/// The distribution of at least one timing.
pub open spec fn distribution_of(timings: Seq<Elapsed>) -> ElapsedDistribution {
    let list = sorted(timings, shorter_first());
    let n = timings.len();
    ElapsedDistribution {
        samples: n as usize,
        min: list[0],
        p25: list[nearest_rank(n, 25) as int],
        median: list[nearest_rank(n, 50) as int],
        p75: list[nearest_rank(n, 75) as int],
        p90: list[nearest_rank(n, 90) as int],
        p99: list[nearest_rank(n, 99) as int],
        max: list[n - 1],
        mean: nanos_elapsed(total_nanos(timings, n) / n),
    }
}

/// Every span has fewer than a billion additional nanoseconds.
pub open spec fn all_wf(timings: Seq<Elapsed>) -> bool {
    forall|i: int| 0 <= i < timings.len() ==> (#[trigger] timings[i]).wf()
}

/// One more than the longest span in nanoseconds.
pub open spec fn nanos_bound() -> nat {
    (u64::MAX as nat + 1) * 1_000_000_000
}

proof fn lemma_total_bound(timings: Seq<Elapsed>, n: nat)
    requires
        n <= timings.len(),
        all_wf(timings),
    ensures
        total_nanos(timings, n) <= n * (nanos_bound() - 1),
    decreases n,
{
    if n > 0 {
        lemma_total_bound(timings, (n - 1) as nat);
        assert(timings[n - 1].wf());
        assert(timings[n - 1].total() <= nanos_bound() - 1);
        assert(n * (nanos_bound() - 1) == (n - 1) * (nanos_bound() - 1) + (nanos_bound() - 1))
            by (nonlinear_arith);
    }
}

proof fn lemma_total_grows(timings: Seq<Elapsed>, k: nat, n: nat)
    requires
        k <= n,
    ensures
        total_nanos(timings, k) <= total_nanos(timings, n),
    decreases n,
{
    if k < n {
        lemma_total_grows(timings, k, (n - 1) as nat);
    }
}

impl ElapsedDistribution {
    /// Builds a distribution from an unsorted timing buffer, which is left sorted.
    pub fn new(timings: &mut Vec<Elapsed>) -> (result: Option<Self>)
        requires
            all_wf(old(timings)@),
            old(timings)@.len() * 100 <= usize::MAX,
            total_nanos(old(timings)@, old(timings)@.len()) <= u128::MAX,
        ensures
            final(timings)@ == sorted(old(timings)@, shorter_first()),
            old(timings)@.len() == 0 ==> result is None,
            old(timings)@.len() > 0 ==> result == Some(distribution_of(old(timings)@)),
    {
        if timings.len() == 0 {
            proof {
                assert(timings@ =~= sorted(timings@, shorter_first()));
            }
            return None;
        }
        let list = sort_elapsed(timings);
        let samples = timings.len();
        proof {
            assert(ranks(shorter_first()));
            lemma_sorted(timings@, shorter_first(), timings@.len());
        }
        let mut total: u128 = 0;
        let mut i: usize = 0;
        while i < timings.len()
            invariant
                0 <= i <= timings@.len(),
                *timings == *old(timings),
                timings@.len() * 100 <= usize::MAX,
                total_nanos(timings@, timings@.len()) <= u128::MAX,
                total == total_nanos(timings@, i as nat),
            decreases timings@.len() - i,
        {
            proof {
                lemma_total_grows(timings@, (i + 1) as nat, timings@.len());
            }
            total = total + timings[i].as_nanos();
            i += 1;
        }
        proof {
            lemma_total_bound(timings@, samples as nat);
            let t = total as int;
            let n = samples as int;
            let b = nanos_bound() - 1;
            assert(t / n <= b) by (nonlinear_arith)
                requires
                    t <= n * b,
                    n > 0,
            ;
        }
        let mean = duration_from_nanos(total / samples as u128);
        *timings = list;
        Some(
            ElapsedDistribution {
                samples,
                min: timings[0],
                p25: percentile(timings.as_slice(), 25),
                median: percentile(timings.as_slice(), 50),
                p75: percentile(timings.as_slice(), 75),
                p90: percentile(timings.as_slice(), 90),
                p99: percentile(timings.as_slice(), 99),
                max: timings[samples - 1],
                mean,
            },
        )
    }
}

/// The quantiles of a distribution do not descend.
pub proof fn lemma_distribution_ordered(timings: Seq<Elapsed>)
    requires
        timings.len() > 0,
    ensures
        ({
            let d = distribution_of(timings);
            &&& d.min.total() <= d.p25.total()
            &&& d.p25.total() <= d.median.total()
            &&& d.median.total() <= d.p75.total()
            &&& d.p75.total() <= d.p90.total()
            &&& d.p90.total() <= d.p99.total()
            &&& d.p99.total() <= d.max.total()
        }),
{
    let n = timings.len();
    let list = sorted(timings, shorter_first());
    assert(ranks(shorter_first()));
    lemma_sorted(timings, shorter_first(), n);
    lemma_nearest_rank(n, 99);
    assert forall|i: int, j: int| 0 <= i <= j < n implies (#[trigger] list[i]).total() <= (
    #[trigger] list[j]).total() by {
        if i < j {
            assert(!shorter_first()(list[j], list[i]));
        }
    }
}

/// Returns whether one outcome contributes to the timing distribution.
pub fn is_measured_category(category: OutcomeCategory) -> (answer: bool)
    ensures
        answer == !category.fails(),
{
    match category {
        OutcomeCategory::Pass => true,
        OutcomeCategory::NoOracle => true,
        _ => false,
    }
}

/// The elapsed times of the first `n` outcomes that did not fail.
pub open spec fn measured_times(outcomes: Seq<CaseOutcome>, n: nat) -> Seq<Elapsed>
    decreases n,
{
    if n == 0 {
        Seq::empty()
    } else {
        let before = measured_times(outcomes, (n - 1) as nat);
        if outcomes[n - 1].category.fails() {
            before
        } else {
            before.push(outcomes[n - 1].total_elapsed)
        }
    }
}

/// Aggregate result for a repeated single-case benchmark.
#[derive(Debug)]
pub struct BenchmarkSummary {
    /// All measured subprocess runs.
    pub measured: Vec<CaseOutcome>,
    /// Distribution over successful measured runs.
    pub distribution: Option<ElapsedDistribution>,
    /// The number of measured runs that failed classification.
    pub failures: usize,
    /// Total wall-clock time spent in measured runs.
    pub total_elapsed: Elapsed,
}

impl BenchmarkSummary {
    /// Builds a summary from measured subprocess outcomes.
    pub fn new(measured: Vec<CaseOutcome>, total_elapsed: Elapsed) -> (summary: Self)
        requires
            measured@.len() * 100 <= usize::MAX,
            total_nanos(
                measured_times(measured@, measured@.len()),
                measured_times(measured@, measured@.len()).len(),
            ) <= u128::MAX,
            forall|i: int| 0 <= i < measured@.len() ==> (#[trigger] measured@[i]).total_elapsed.wf(),
        ensures
            summary.measured == measured,
            summary.total_elapsed == total_elapsed,
            ({
                let times = measured_times(measured@, measured@.len());
                &&& summary.failures == measured@.len() - times.len()
                &&& times.len() == 0 ==> summary.distribution is None
                &&& times.len() > 0 ==> summary.distribution == Some(distribution_of(times))
            }),
    {
        let mut timings: Vec<Elapsed> = Vec::new();
        let mut failures: usize = 0;
        let mut i: usize = 0;
        while i < measured.len()
            invariant
                0 <= i <= measured@.len(),
                forall|i: int|
                    0 <= i < measured@.len() ==> (#[trigger] measured@[i]).total_elapsed.wf(),
                timings@ == measured_times(measured@, i as nat),
                failures + timings@.len() == i,
                all_wf(timings@),
            decreases measured@.len() - i,
        {
            if is_measured_category(measured[i].category) {
                timings.push(measured[i].total_elapsed);
            } else {
                failures += 1;
            }
            i += 1;
        }
        let distribution = ElapsedDistribution::new(&mut timings);
        BenchmarkSummary { measured, distribution, failures, total_elapsed }
    }

    /// The summary of a benchmark that failed before its first measurement.
    pub fn failed_warmup() -> (summary: Self)
        ensures
            summary.measured@.len() == 0,
            summary.distribution is None,
            summary.failures == 1,
            summary.total_elapsed.total() == 0,
    {
        BenchmarkSummary {
            measured: Vec::new(),
            distribution: None,
            failures: 1,
            total_elapsed: Elapsed { secs: 0, nanos: 0 },
        }
    }

    /// Returns `true` when at least one run failed.
    pub fn has_failures(&self) -> (answer: bool)
        ensures
            answer == (self.failures > 0),
    {
        self.failures > 0
    }

    /// Returns the number of measured runs that did not fail.
    pub fn successful(&self) -> (count: usize)
        ensures
            count == if self.failures <= self.measured@.len() {
                self.measured@.len() - self.failures
            } else {
                0
            },
            self.failures <= self.measured@.len() ==> count + self.failures == self.measured@.len(),
    {
        if self.failures <= self.measured.len() {
            self.measured.len() - self.failures
        } else {
            0
        }
    }
}

/// The message for a benchmark target that is not exactly one case.
pub fn target_error(found: usize) -> (error: String)
    ensures
        error@ == "benchmark target must resolve to exactly one supported case, found "@
            + decimal_text(found as nat),
{
    let count = decimal(found as u64);
    joined(
        "benchmark target must resolve to exactly one supported case, found ",
        count.as_str(),
    )
}

} // verus!
