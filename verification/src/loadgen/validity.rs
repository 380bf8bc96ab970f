//! Validity rules of a run and the `selfcheck` verdict.
//!
//! - once per second the achieved concurrency and chunk rate are compared
//!   with the target; more than 1% of the measured intervals deviating by
//!   more than 5% invalidates the run;
//! - a clock step detected by the realtime offset invalidates the run;
//! - a mock write lag p99 at or above its limit invalidates the run. So does
//!   the absence of mock write lag samples where the responses carry
//!   markers: the rule must not pass for lack of evidence;
//! - a run without measured intervals or completed requests is invalid;
//! - more than 0.1% failed requests (stale keep-alive retries excluded, they
//!   succeed on the retry) invalidate the run, and so do stale retries above
//!   0.1% of the requests;
//! - an emit lag p99 of 10 us or more, or a p99.9 of 1 ms or more, means the
//!   load generator itself fell behind its schedule. The reason names the
//!   likely cause from the deadline misses;
//! - where kernel receive timestamps are required, a receive without one;
//! - more than 0.1% of the recorded spans negative: the clock conversion is
//!   off, and those spans were recorded as 0;
//! - on request, a request slip p99 at or above the limit: the mock's
//!   inbound path queues requests, and TTFT measures the mock instead of the
//!   target.

use crate::loadgen::censor::Metric;
use crate::loadgen::schedule::SEC_NS;
use crate::loadgen::shard::Counters;
use crate::text;
use crate::text::push_decimal;
use vstd::prelude::*;
use vstd::string::StringExecFns;

verus! {

/// Emit lag p99 limit.
pub const EMIT_LAG_P99_LIMIT_NS: u64 = 10_000;

/// Emit lag p99.9 limit.
pub const EMIT_LAG_P999_LIMIT_NS: u64 = 1_000_000;

/// What the rules read of a recorded interval.
#[derive(Debug)]
pub struct Interval {
    /// Interval index.
    pub index: u64,
    /// Length.
    pub duration_ns: u64,
    /// The mean concurrency deviates from the one offered by more than 5%.
    pub concurrency_deviates: bool,
    /// Chunks received.
    pub chunks: u64,
    /// Requests completed.
    pub requests: u64,
    /// Failures by kind.
    pub errors: Vec<(String, u64)>,
    /// Spans that ended before they started.
    pub negative: u64,
}

/// What the rules read of the summary of a metric.
#[derive(Debug, Clone, Copy, PartialEq, Eq, Structural)]
pub struct MetricSummary {
    /// Metric.
    pub metric: Metric,
    /// Samples.
    pub count: u64,
    /// 99th percentile.
    pub p99_ns: u64,
    /// 99.9th percentile.
    pub p999_ns: u64,
}

/// Request outcomes of the measured intervals.
#[derive(Debug, Clone, Copy, PartialEq, Eq, Structural)]
pub struct Outcomes {
    /// Requests completed successfully.
    pub requests: u64,
    /// Failed requests, stale retries excluded.
    pub failures: u64,
    /// Stale keep-alive retries.
    pub stale_retries: u64,
}

/// Failures, or stale retries, among the errors of an interval.
pub open spec fn errors_sum(errors: Seq<(String, u64)>, stale: bool) -> int
    decreases errors.len(),
{
    if errors.len() == 0 {
        0
    } else {
        errors_sum(errors.drop_last(), stale) + if (errors.last().0@ == "stale_retry"@) == stale {
            errors.last().1 as int
        } else {
            0
        }
    }
}

/// Requests, failures and stale retries of the intervals from `warmup` on.
pub open spec fn outcome_sums(intervals: Seq<Interval>, warmup: u64) -> (int, int, int)
    decreases intervals.len(),
{
    if intervals.len() == 0 {
        (0, 0, 0)
    } else {
        let rest = outcome_sums(intervals.drop_last(), warmup);
        let last = intervals.last();
        if last.index >= warmup {
            (
                rest.0 + last.requests,
                rest.1 + errors_sum(last.errors@, false),
                rest.2 + errors_sum(last.errors@, true),
            )
        } else {
            rest
        }
    }
}

/// Spans below zero of the intervals from `warmup` on.
pub open spec fn negative_sum(intervals: Seq<Interval>, warmup: u64) -> int
    decreases intervals.len(),
{
    if intervals.len() == 0 {
        0
    } else {
        negative_sum(intervals.drop_last(), warmup) + if intervals.last().index >= warmup {
            intervals.last().negative as int
        } else {
            0
        }
    }
}

/// Number of intervals from `warmup` on.
pub open spec fn measured_count(intervals: Seq<Interval>, warmup: u64) -> nat
    decreases intervals.len(),
{
    if intervals.len() == 0 {
        0
    } else {
        measured_count(intervals.drop_last(), warmup) + if intervals.last().index >= warmup {
            1nat
        } else {
            0nat
        }
    }
}

proof fn lemma_errors_sum(errors: Seq<(String, u64)>, n: int, stale: bool)
    requires
        0 <= n <= errors.len(),
    ensures
        0 <= errors_sum(errors.take(n), stale) <= errors_sum(errors, stale),
    decreases errors.len(),
{
    if n < errors.len() {
        lemma_errors_sum(errors.drop_last(), n, stale);
        assert(errors.drop_last().take(n) =~= errors.take(n));
    } else {
        assert(errors.take(n) =~= errors);
        if n > 0 {
            lemma_errors_sum(errors.drop_last(), n - 1, stale);
            assert(errors.drop_last().take(n - 1) =~= errors.drop_last());
        }
    }
}

proof fn lemma_sums(intervals: Seq<Interval>, n: int, warmup: u64)
    requires
        0 <= n <= intervals.len(),
    ensures
        0 <= outcome_sums(intervals.take(n), warmup).0 <= outcome_sums(intervals, warmup).0,
        0 <= outcome_sums(intervals.take(n), warmup).1 <= outcome_sums(intervals, warmup).1,
        0 <= outcome_sums(intervals.take(n), warmup).2 <= outcome_sums(intervals, warmup).2,
        0 <= negative_sum(intervals.take(n), warmup) <= negative_sum(intervals, warmup),
    decreases intervals.len(),
{
    if intervals.len() > 0 {
        let errors = intervals.last().errors@;
        lemma_errors_sum(errors, 0, false);
        lemma_errors_sum(errors, 0, true);
    }
    if n < intervals.len() {
        lemma_sums(intervals.drop_last(), n, warmup);
        assert(intervals.drop_last().take(n) =~= intervals.take(n));
    } else {
        assert(intervals.take(n) =~= intervals);
        if n > 0 {
            lemma_sums(intervals.drop_last(), n - 1, warmup);
            assert(intervals.drop_last().take(n - 1) =~= intervals.drop_last());
        }
    }
}

/// No sum is below zero.
pub(crate) proof fn lemma_sums_are_counts(intervals: Seq<Interval>, warmup: u64)
    ensures
        0 <= outcome_sums(intervals, warmup).0,
        0 <= outcome_sums(intervals, warmup).1,
        0 <= outcome_sums(intervals, warmup).2,
{
    lemma_sums(intervals, intervals.len() as int, warmup);
    assert(intervals.take(intervals.len() as int) =~= intervals);
}

/// The outcomes and the spans below zero can be added up.
pub open spec fn countable(intervals: Seq<Interval>, warmup: u64) -> bool {
    let sums = outcome_sums(intervals, warmup);
    &&& sums.0 + sums.1 <= u64::MAX
    &&& sums.2 <= u64::MAX
    &&& negative_sum(intervals, warmup) <= u64::MAX
}

/// The failures and the stale retries among errors; `None` when either does
/// not fit.
fn checked_errors(errors: &Vec<(String, u64)>) -> (r: Option<(u64, u64)>)
    ensures
        match r {
            Some((failures, stale)) => failures == errors_sum(errors@, false) && stale
                == errors_sum(errors@, true),
            None => errors_sum(errors@, false) > u64::MAX || errors_sum(errors@, true) > u64::MAX,
        },
{
    let stale_retry = String::from_str("stale_retry");
    let mut failures: u64 = 0;
    let mut stale: u64 = 0;
    let mut k: usize = 0;
    assert(errors@.take(0) =~= Seq::empty());
    while k < errors.len()
        invariant
            k <= errors@.len(),
            stale_retry@ == "stale_retry"@,
            failures == errors_sum(errors@.take(k as int), false),
            stale == errors_sum(errors@.take(k as int), true),
        decreases errors@.len() - k,
    {
        let entry = &errors[k];
        proof {
            assert(errors@.take(k + 1).drop_last() =~= errors@.take(k as int));
            lemma_errors_sum(errors@, k + 1, true);
            lemma_errors_sum(errors@, k + 1, false);
        }
        let is_stale = entry.0 == stale_retry;
        let sum: u64 = if is_stale {
            stale
        } else {
            failures
        };
        match sum.checked_add(entry.1) {
            Some(v) => if is_stale {
                stale = v;
            } else {
                failures = v;
            },
            None => {
                return None;
            },
        }
        k += 1;
    }
    assert(errors@.take(k as int) =~= errors@);
    Some((failures, stale))
}

/// Whether the outcomes and the spans below zero of the intervals from
/// `warmup_intervals` on can be added up.
pub fn is_countable(intervals: &[Interval], warmup_intervals: u64) -> (r: bool)
    ensures
        r == countable(intervals@, warmup_intervals),
{
    let mut requests: u64 = 0;
    let mut failures: u64 = 0;
    let mut stale: u64 = 0;
    let mut negative: u64 = 0;
    let mut i: usize = 0;
    assert(intervals@.take(0) =~= Seq::empty());
    while i < intervals.len()
        invariant
            i <= intervals@.len(),
            (requests as int, failures as int, stale as int) == outcome_sums(
                intervals@.take(i as int),
                warmup_intervals,
            ),
            negative == negative_sum(intervals@.take(i as int), warmup_intervals),
        decreases intervals@.len() - i,
    {
        let interval = &intervals[i];
        proof {
            assert(intervals@.take(i + 1).drop_last() =~= intervals@.take(i as int));
            lemma_sums(intervals@, i + 1, warmup_intervals);
            lemma_sums(intervals@, intervals@.len() as int, warmup_intervals);
            lemma_errors_sum(interval.errors@, 0, true);
            lemma_errors_sum(interval.errors@, 0, false);
        }
        if interval.index >= warmup_intervals {
            let (failed, retried): (u64, u64) = match checked_errors(&interval.errors) {
                Some(sums) => sums,
                None => {
                    return false;
                },
            };
            match (
                requests.checked_add(interval.requests),
                failures.checked_add(failed),
                stale.checked_add(retried),
                negative.checked_add(interval.negative),
            ) {
                (Some(a), Some(b), Some(c), Some(d)) => {
                    requests = a;
                    failures = b;
                    stale = c;
                    negative = d;
                },
                _ => {
                    return false;
                },
            }
        }
        i += 1;
    }
    assert(intervals@.take(i as int) =~= intervals@);
    requests.checked_add(failures).is_some()
}

impl Outcomes {
    /// Counts the outcomes of the intervals from `warmup_intervals` on.
    pub fn of(intervals: &[Interval], warmup_intervals: u64) -> (r: Self)
        requires
            countable(intervals@, warmup_intervals),
        ensures
            (r.requests as int, r.failures as int, r.stale_retries as int) == outcome_sums(
                intervals@,
                warmup_intervals,
            ),
    {
        let mut outcomes = Outcomes { requests: 0, failures: 0, stale_retries: 0 };
        let stale_retry = String::from_str("stale_retry");
        let mut i: usize = 0;
        assert(intervals@.take(0) =~= Seq::empty());
        while i < intervals.len()
            invariant
                i <= intervals@.len(),
                stale_retry@ == "stale_retry"@,
                countable(intervals@, warmup_intervals),
                (
                    outcomes.requests as int,
                    outcomes.failures as int,
                    outcomes.stale_retries as int,
                ) == outcome_sums(intervals@.take(i as int), warmup_intervals),
            decreases intervals@.len() - i,
        {
            let interval = &intervals[i];
            proof {
                assert(intervals@.take(i + 1).drop_last() =~= intervals@.take(i as int));
                lemma_sums(intervals@, i + 1, warmup_intervals);
                lemma_sums(intervals@, intervals@.len() as int, warmup_intervals);
                lemma_errors_sum(interval.errors@, 0, true);
                lemma_errors_sum(interval.errors@, 0, false);
            }
            if interval.index >= warmup_intervals {
                outcomes.requests += interval.requests;
                let ghost before = outcomes;
                let mut k: usize = 0;
                assert(interval.errors@.take(0) =~= Seq::empty());
                while k < interval.errors.len()
                    invariant
                        k <= interval.errors@.len(),
                        stale_retry@ == "stale_retry"@,
                        outcomes.requests == before.requests,
                        outcomes.failures == before.failures + errors_sum(
                            interval.errors@.take(k as int),
                            false,
                        ),
                        outcomes.stale_retries == before.stale_retries + errors_sum(
                            interval.errors@.take(k as int),
                            true,
                        ),
                        before.failures + errors_sum(interval.errors@, false) <= u64::MAX,
                        before.stale_retries + errors_sum(interval.errors@, true) <= u64::MAX,
                    decreases interval.errors@.len() - k,
                {
                    let entry = &interval.errors[k];
                    proof {
                        assert(interval.errors@.take(k + 1).drop_last() =~= interval.errors@.take(
                            k as int,
                        ));
                        lemma_errors_sum(interval.errors@, k + 1, true);
                        lemma_errors_sum(interval.errors@, k + 1, false);
                    }
                    if entry.0 == stale_retry {
                        outcomes.stale_retries += entry.1;
                    } else {
                        outcomes.failures += entry.1;
                    }
                    k += 1;
                }
                assert(interval.errors@.take(k as int) =~= interval.errors@);
            }
            i += 1;
        }
        assert(intervals@.take(i as int) =~= intervals@);
        outcomes
    }

    /// More than 0.1% of the requests failed.
    pub open spec fn fails_too_often(self) -> bool {
        1_000 * self.failures > self.requests + self.failures
    }

    /// More than 0.1% as many stale retries as requests.
    pub open spec fn retries_too_often(self) -> bool {
        1_000 * self.stale_retries > self.requests
    }
}

/// Per-second comparison of achieved and offered load.
#[derive(Debug, Clone, Copy, PartialEq, Eq, Structural)]
pub struct LoadCheck {
    /// Full-length post-warmup intervals compared.
    pub checked_intervals: u64,
    /// Intervals whose concurrency deviates by more than the tolerance.
    pub concurrency_deviating: u64,
    /// Intervals whose chunk count deviates by more than the tolerance.
    pub chunk_rate_deviating: u64,
    /// Intervals deviating in either respect.
    pub deviating: u64,
}

/// Chunks that an interval is planned to have due.
#[derive(Debug, Clone, Copy, PartialEq, Eq, Structural)]
pub struct PlannedChunks {
    /// Interval index.
    pub index: u64,
    /// Chunks due.
    pub chunks: u64,
}

/// `actual` differs from `planned` by more than 5% of it; any load where
/// none was planned does.
pub open spec fn deviates(actual: int, planned: int) -> bool {
    if planned > 0 {
        20 * (if actual >= planned {
            actual - planned
        } else {
            planned - actual
        }) > planned
    } else {
        actual > 0
    }
}

/// Whether `actual` differs from `planned` by more than 5% of it.
pub fn chunks_deviate(actual: u64, planned: u64) -> (r: bool)
    ensures
        r == deviates(actual as int, planned as int),
{
    if planned > 0 {
        let gap: u64 = if actual >= planned {
            actual - planned
        } else {
            planned - actual
        };
        20 * (gap as u128) > planned as u128
    } else {
        actual > 0
    }
}

/// The chunks planned for an interval; the last entry for it counts.
pub open spec fn planned_for(planned: Seq<PlannedChunks>, index: u64) -> u64
    decreases planned.len(),
{
    if planned.len() == 0 {
        0
    } else if planned.last().index == index {
        planned.last().chunks
    } else {
        planned_for(planned.drop_last(), index)
    }
}

fn find_planned(planned: &[PlannedChunks], index: u64) -> (r: u64)
    ensures
        r == planned_for(planned@, index),
{
    let mut i: usize = planned.len();
    assert(planned@.take(i as int) =~= planned@);
    while i > 0
        invariant
            i <= planned@.len(),
            planned_for(planned@, index) == planned_for(planned@.take(i as int), index),
        decreases i,
    {
        proof {
            assert(planned@.take(i as int).drop_last() =~= planned@.take(i - 1));
        }
        if planned[i - 1].index == index {
            return planned[i - 1].chunks;
        }
        i -= 1;
    }
    0
}

/// The interval is compared: it is full and comes after the warmup.
pub open spec fn is_checked(interval: Interval, warmup: u64) -> bool {
    interval.index >= warmup && interval.duration_ns == SEC_NS
}

/// Counts of the intervals compared: all, those whose concurrency deviates,
/// those whose chunk count does, and those in which either does.
pub open spec fn load_counts(
    intervals: Seq<Interval>,
    planned: Seq<PlannedChunks>,
    warmup: u64,
) -> (nat, nat, nat, nat)
    decreases intervals.len(),
{
    if intervals.len() == 0 {
        (0, 0, 0, 0)
    } else {
        let rest = load_counts(intervals.drop_last(), planned, warmup);
        let last = intervals.last();
        if is_checked(last, warmup) {
            let concurrency = last.concurrency_deviates;
            let chunks = deviates(last.chunks as int, planned_for(planned, last.index) as int);
            (
                rest.0 + 1,
                rest.1 + if concurrency {
                    1nat
                } else {
                    0nat
                },
                rest.2 + if chunks {
                    1nat
                } else {
                    0nat
                },
                rest.3 + if concurrency || chunks {
                    1nat
                } else {
                    0nat
                },
            )
        } else {
            rest
        }
    }
}

/// Compares the achieved load of every full post-warmup interval with the
/// offered load.
pub fn check_load(
    intervals: &[Interval],
    planned: &[PlannedChunks],
    warmup_intervals: u64,
) -> (r: LoadCheck)
    ensures
        (
            r.checked_intervals as nat,
            r.concurrency_deviating as nat,
            r.chunk_rate_deviating as nat,
            r.deviating as nat,
        ) == load_counts(intervals@, planned@, warmup_intervals),
        r.deviating <= r.checked_intervals,
        r.concurrency_deviating <= r.deviating,
        r.chunk_rate_deviating <= r.deviating,
        r.deviating <= r.concurrency_deviating + r.chunk_rate_deviating,
{
    let mut check = LoadCheck {
        checked_intervals: 0,
        concurrency_deviating: 0,
        chunk_rate_deviating: 0,
        deviating: 0,
    };
    let mut i: usize = 0;
    assert(intervals@.take(0) =~= Seq::empty());
    while i < intervals.len()
        invariant
            i <= intervals@.len(),
            check.checked_intervals <= i,
            check.deviating <= check.checked_intervals,
            check.concurrency_deviating <= check.deviating,
            check.chunk_rate_deviating <= check.deviating,
            check.deviating <= check.concurrency_deviating + check.chunk_rate_deviating,
            (
                check.checked_intervals as nat,
                check.concurrency_deviating as nat,
                check.chunk_rate_deviating as nat,
                check.deviating as nat,
            ) == load_counts(intervals@.take(i as int), planned@, warmup_intervals),
        decreases intervals@.len() - i,
    {
        let interval = &intervals[i];
        proof {
            assert(intervals@.take(i + 1).drop_last() =~= intervals@.take(i as int));
        }
        assert(i < intervals.len());
        if interval.index >= warmup_intervals && interval.duration_ns == SEC_NS {
            let chunks = chunks_deviate(interval.chunks, find_planned(planned, interval.index));
            check.checked_intervals += 1;
            if interval.concurrency_deviates {
                check.concurrency_deviating += 1;
            }
            if chunks {
                check.chunk_rate_deviating += 1;
            }
            if interval.concurrency_deviates || chunks {
                check.deviating += 1;
            }
        }
        i += 1;
    }
    assert(intervals@.take(i as int) =~= intervals@);
    check
}

impl LoadCheck {
    /// More than 1% of the intervals deviate.
    pub open spec fn deviates_too_often(self) -> bool {
        100 * self.deviating > self.checked_intervals
    }

    /// Whether more intervals deviate than is tolerated.
    pub fn too_many_deviating(&self) -> (r: bool)
        ensures
            r == self.deviates_too_often(),
    {
        100 * (self.deviating as u128) > self.checked_intervals as u128
    }
}

/// Sends that missed their spin window, and by how much.
#[derive(Debug, Clone, Copy, PartialEq, Eq, Structural)]
pub struct Misses {
    /// Sends the event loop woke up for only after their deadline.
    pub late_wakeups: u64,
    /// Sends whose deadline passed while the loop handled other events.
    pub busy_loop_misses: u64,
    /// Largest deadline miss, nanoseconds.
    pub max_deadline_miss_ns: u64,
}

/// Why a run is not valid.
#[derive(Debug, Clone, Copy, PartialEq, Eq, Structural)]
pub enum Reason {
    /// There is no interval after the warmup.
    NoIntervals,
    /// The realtime clock stepped.
    ClockSteps {
        /// How often.
        steps: u64,
    },
    /// The mock wrote late.
    MockWriteLag {
        /// p99 of the mock write lag.
        mock_p99_ns: u64,
        /// Its limit.
        mock_limit_ns: u64,
    },
    /// Nothing is known of the mock's writes.
    NoMockWriteLag,
    /// The load generator fell behind its schedule.
    EmitLag {
        /// The rule is that on the p99.9.
        far_tail: bool,
        /// The percentile of the emit lag.
        lag_ns: u64,
        /// Sends.
        sends: u64,
        /// Deadline misses.
        misses: Misses,
    },
    /// Receives without a kernel timestamp.
    NoTimestamps {
        /// Those.
        without: u64,
        /// All.
        batches: u64,
    },
    /// Too many spans ended before they started.
    NegativeSpans {
        /// Those.
        negative: u64,
        /// All.
        samples: u64,
    },
    /// Too many intervals deviate from the offered load.
    Load {
        /// The comparison.
        load: LoadCheck,
    },
    /// No request completed after the warmup.
    NoRequests,
    /// Too many requests failed.
    Failures {
        /// Those.
        failures: u64,
        /// All.
        requests: u64,
    },
    /// Too many stale retries.
    StaleRetries {
        /// Those.
        retries: u64,
        /// Requests completed.
        completed: u64,
    },
    /// Requests wait at the mock.
    Slip {
        /// p99 of the request slip.
        slip_p99_ns: u64,
        /// Its limit.
        slip_limit_ns: u64,
        /// Requests.
        count: u64,
    },
    /// Nothing is known of the request slip.
    NoSlip,
}

/// Inputs of [`evaluate`].
#[derive(Debug)]
pub struct Evidence {
    /// Merged intervals, warmup included.
    pub intervals: Vec<Interval>,
    /// Leading intervals excluded.
    pub warmup_intervals: u64,
    /// Post-warmup summary, each metric at most once.
    pub summary: Vec<MetricSummary>,
    /// Clock steps detected by any shard.
    pub clock_steps: u64,
    /// Load check, for stream scenarios.
    pub load: Option<LoadCheck>,
    /// Transport counters of the whole run.
    pub counters: Counters,
    /// Post-warmup deadline misses.
    pub misses: Misses,
    /// Successful responses carry mock timestamp markers.
    pub markers_expected: bool,
    /// Mock write lag p99 limit.
    pub mock_lag_limit_ns: u64,
    /// Every receive must carry a kernel timestamp.
    pub timestamps_required: bool,
}

/// The summary of a metric, if it has samples.
pub open spec fn summary_of(summary: Seq<MetricSummary>, metric: Metric) -> Option<MetricSummary>
    decreases summary.len(),
{
    if summary.len() == 0 {
        None
    } else {
        match summary_of(summary.drop_last(), metric) {
            Some(found) => Some(found),
            None => if summary.last().metric == metric {
                Some(summary.last())
            } else {
                None
            },
        }
    }
}

proof fn lemma_summary_first(summary: Seq<MetricSummary>, metric: Metric, at: int)
    requires
        0 <= at <= summary.len(),
        forall|i: int| 0 <= i < at ==> (#[trigger] summary[i]).metric != metric,
        at < summary.len() ==> summary[at].metric == metric,
    ensures
        summary_of(summary, metric) == if at < summary.len() {
            Some(summary[at])
        } else {
            None
        },
    decreases summary.len(),
{
    if summary.len() > 0 {
        let rest = summary.drop_last();
        if at < summary.len() - 1 {
            lemma_summary_first(rest, metric, at);
        } else {
            lemma_summary_first(rest, metric, rest.len() as int);
        }
    }
}

fn find_summary(summary: &[MetricSummary], metric: Metric) -> (r: Option<MetricSummary>)
    ensures
        r == summary_of(summary@, metric),
{
    let mut i: usize = 0;
    while i < summary.len()
        invariant
            i <= summary@.len(),
            forall|k: int| 0 <= k < i ==> (#[trigger] summary@[k]).metric != metric,
        decreases summary@.len() - i,
    {
        if summary[i].metric == metric {
            proof {
                lemma_summary_first(summary@, metric, i as int);
            }
            return Some(summary[i]);
        }
        i += 1;
    }
    proof {
        lemma_summary_first(summary@, metric, i as int);
    }
    None
}

/// Total sample count the negative-span rule divides by. `TtftReused`
/// repeats a subset of `Ttft`'s samples; counting both would double-count
/// those samples and loosen the rule.
pub open spec fn span_count(summary: Seq<MetricSummary>) -> int
    decreases summary.len(),
{
    if summary.len() == 0 {
        0
    } else {
        span_count(summary.drop_last()) + if summary.last().metric == Metric::TtftReused {
            0
        } else {
            summary.last().count as int
        }
    }
}

proof fn lemma_span_prefix(summary: Seq<MetricSummary>, n: int)
    requires
        0 <= n <= summary.len(),
    ensures
        0 <= span_count(summary.take(n)) <= span_count(summary),
    decreases summary.len(),
{
    if n < summary.len() {
        lemma_span_prefix(summary.drop_last(), n);
        assert(summary.drop_last().take(n) =~= summary.take(n));
    } else {
        assert(summary.take(n) =~= summary);
        if n > 0 {
            lemma_span_prefix(summary.drop_last(), n - 1);
            assert(summary.drop_last().take(n - 1) =~= summary.drop_last());
        }
    }
}

/// Total sample count the negative-span rule divides by.
pub fn negative_span_denominator(summary: &[MetricSummary]) -> (r: u64)
    requires
        span_count(summary@) <= u64::MAX,
    ensures
        r == span_count(summary@),
{
    let mut total: u64 = 0;
    let mut i: usize = 0;
    assert(summary@.take(0) =~= Seq::empty());
    while i < summary.len()
        invariant
            i <= summary@.len(),
            span_count(summary@) <= u64::MAX,
            total == span_count(summary@.take(i as int)),
        decreases summary@.len() - i,
    {
        proof {
            assert(summary@.take(i + 1).drop_last() =~= summary@.take(i as int));
            lemma_span_prefix(summary@, i + 1);
        }
        match summary[i].metric {
            Metric::TtftReused => {},
            _ => {
                total += summary[i].count;
            },
        }
        i += 1;
    }
    assert(summary@.take(i as int) =~= summary@);
    total
}

/// Whether that count fits.
fn span_count_fits(summary: &[MetricSummary]) -> (r: bool)
    ensures
        r == (span_count(summary@) <= u64::MAX),
{
    let mut total: u64 = 0;
    let mut i: usize = 0;
    assert(summary@.take(0) =~= Seq::empty());
    while i < summary.len()
        invariant
            i <= summary@.len(),
            total == span_count(summary@.take(i as int)),
        decreases summary@.len() - i,
    {
        proof {
            assert(summary@.take(i + 1).drop_last() =~= summary@.take(i as int));
            lemma_span_prefix(summary@, i + 1);
        }
        let count: u64 = match summary[i].metric {
            Metric::TtftReused => 0,
            _ => summary[i].count,
        };
        match total.checked_add(count) {
            Some(v) => {
                total = v;
            },
            None => {
                return false;
            },
        }
        i += 1;
    }
    assert(summary@.take(i as int) =~= summary@);
    true
}

/// Samples repeated under `TtftReused` do not loosen the negative-span rule.
pub proof fn law_reused_samples_do_not_count_twice(
    summary: Seq<MetricSummary>,
    reused: MetricSummary,
)
    requires
        reused.metric == Metric::TtftReused,
    ensures
        span_count(summary.push(reused)) == span_count(summary),
{
    assert(summary.push(reused).drop_last() =~= summary);
}

/// One reason if `holds`, none otherwise.
pub open spec fn reason_if(holds: bool, reason: Reason) -> Seq<Reason> {
    if holds {
        seq![reason]
    } else {
        Seq::empty()
    }
}

impl Evidence {
    /// The counts of the evidence can be added up.
    pub open spec fn countable(self) -> bool {
        &&& countable(self.intervals@, self.warmup_intervals)
        &&& span_count(self.summary@) <= u64::MAX
        &&& self.misses.late_wakeups + self.misses.busy_loop_misses <= u64::MAX
    }

    /// Whether the counts of the evidence can be added up.
    pub fn is_countable(&self) -> (r: bool)
        ensures
            r == self.countable(),
    {
        self::is_countable(self.intervals.as_slice(), self.warmup_intervals)
            && span_count_fits(self.summary.as_slice()) && self.misses.late_wakeups.checked_add(
            self.misses.busy_loop_misses,
        ).is_some()
    }

    /// What the clock rule finds.
    pub open spec fn clock_reasons(self) -> Seq<Reason> {
        reason_if(
            measured_count(self.intervals@, self.warmup_intervals) == 0,
            Reason::NoIntervals,
        ) + reason_if(self.clock_steps > 0, Reason::ClockSteps { steps: self.clock_steps })
    }

    /// What the mock write lag rule finds.
    pub open spec fn mock_reasons(self) -> Seq<Reason> {
        match summary_of(self.summary@, Metric::MockWriteLag) {
            Some(lag) => reason_if(
                lag.p99_ns >= self.mock_lag_limit_ns,
                Reason::MockWriteLag {
                    mock_p99_ns: lag.p99_ns,
                    mock_limit_ns: self.mock_lag_limit_ns,
                },
            ),
            None => reason_if(self.markers_expected, Reason::NoMockWriteLag),
        }
    }

    /// What the emit lag rules find.
    pub open spec fn emit_reasons(self) -> Seq<Reason> {
        match summary_of(self.summary@, Metric::EmitLag) {
            Some(lag) => reason_if(
                lag.p99_ns >= EMIT_LAG_P99_LIMIT_NS,
                Reason::EmitLag {
                    far_tail: false,
                    lag_ns: lag.p99_ns,
                    sends: lag.count,
                    misses: self.misses,
                },
            ) + reason_if(
                lag.p999_ns >= EMIT_LAG_P999_LIMIT_NS,
                Reason::EmitLag {
                    far_tail: true,
                    lag_ns: lag.p999_ns,
                    sends: lag.count,
                    misses: self.misses,
                },
            ),
            None => Seq::empty(),
        }
    }

    /// What the rules on timestamps and spans find.
    pub open spec fn span_reasons(self) -> Seq<Reason> {
        let negative = negative_sum(self.intervals@, self.warmup_intervals);
        let samples = span_count(self.summary@);
        reason_if(
            self.timestamps_required && self.counters.rx_batches_without_timestamp > 0,
            Reason::NoTimestamps {
                without: self.counters.rx_batches_without_timestamp,
                batches: self.counters.rx_batches,
            },
        ) + reason_if(
            1_000 * negative > samples,
            Reason::NegativeSpans { negative: negative as u64, samples: samples as u64 },
        )
    }

    /// What the load rule finds.
    pub open spec fn load_reasons(self) -> Seq<Reason> {
        match self.load {
            Some(load) => reason_if(load.deviates_too_often(), Reason::Load { load }),
            None => Seq::empty(),
        }
    }

    /// What the rules on the outcomes find.
    pub open spec fn outcome_reasons(self) -> Seq<Reason> {
        let sums = outcome_sums(self.intervals@, self.warmup_intervals);
        let outcomes = Outcomes {
            requests: sums.0 as u64,
            failures: sums.1 as u64,
            stale_retries: sums.2 as u64,
        };
        reason_if(
            measured_count(self.intervals@, self.warmup_intervals) > 0 && outcomes.requests == 0,
            Reason::NoRequests,
        ) + reason_if(
            outcomes.fails_too_often(),
            Reason::Failures {
                failures: outcomes.failures,
                requests: (outcomes.requests + outcomes.failures) as u64,
            },
        ) + reason_if(
            outcomes.retries_too_often(),
            Reason::StaleRetries {
                retries: outcomes.stale_retries,
                completed: outcomes.requests,
            },
        )
    }

    /// What every rule finds, in order.
    pub open spec fn reasons(self) -> Seq<Reason> {
        self.clock_reasons() + self.mock_reasons() + self.emit_reasons() + self.span_reasons()
            + self.load_reasons() + self.outcome_reasons()
    }
}

/// Whether a run is valid, and why not.
#[derive(Debug)]
pub struct Validity {
    /// No rule found anything.
    pub valid: bool,
    /// What the rules found.
    pub reasons: Vec<Reason>,
}

impl Validity {
    /// Valid exactly when there is no reason against it.
    pub open spec fn wf(self) -> bool {
        self.valid == (self.reasons@.len() == 0)
    }

    /// A run that nothing speaks against.
    pub fn new() -> (r: Self)
        ensures
            r.wf(),
            r.reasons@ == Seq::<Reason>::empty(),
    {
        Validity { valid: true, reasons: Vec::new() }
    }

    /// Adds a reason against the run.
    pub fn invalidate(&mut self, reason: Reason)
        ensures
            final(self).wf(),
            !final(self).valid,
            final(self).reasons@ == old(self).reasons@.push(reason),
    {
        self.valid = false;
        self.reasons.push(reason);
    }

    fn invalidate_if(&mut self, holds: bool, reason: Reason)
        requires
            old(self).wf(),
        ensures
            final(self).wf(),
            final(self).reasons@ == old(self).reasons@ + reason_if(holds, reason),
    {
        let ghost before = self.reasons@;
        if holds {
            self.invalidate(reason);
            assert(self.reasons@ =~= before + reason_if(holds, reason));
        } else {
            assert(self.reasons@ =~= before + reason_if(holds, reason));
        }
    }
}

impl Evidence {
    /// Number of intervals after the warmup, and the spans below zero in
    /// them.
    fn measured(&self) -> (r: (usize, u64))
        requires
            self.countable(),
        ensures
            r.0 == measured_count(self.intervals@, self.warmup_intervals),
            r.1 == negative_sum(self.intervals@, self.warmup_intervals),
    {
        let warmup: u64 = self.warmup_intervals;
        let mut negative: u64 = 0;
        let mut measured: usize = 0;
        let mut i: usize = 0;
        assert(self.intervals@.take(0) =~= Seq::empty());
        while i < self.intervals.len()
            invariant
                i <= self.intervals@.len(),
                warmup == self.warmup_intervals,
                self.countable(),
                measured <= i,
                measured == measured_count(self.intervals@.take(i as int), warmup),
                negative == negative_sum(self.intervals@.take(i as int), warmup),
            decreases self.intervals@.len() - i,
        {
            proof {
                assert(self.intervals@.take(i + 1).drop_last() =~= self.intervals@.take(i as int));
                lemma_sums(self.intervals@, i + 1, warmup);
            }
            if self.intervals[i].index >= warmup {
                measured += 1;
                negative += self.intervals[i].negative;
            }
            i += 1;
        }
        assert(self.intervals@.take(i as int) =~= self.intervals@);
        (measured, negative)
    }

    fn judge_clock(&self, validity: &mut Validity, measured: usize)
        requires
            old(validity).wf(),
            measured == measured_count(self.intervals@, self.warmup_intervals),
        ensures
            final(validity).wf(),
            final(validity).reasons@ == old(validity).reasons@ + self.clock_reasons(),
    {
        let ghost before = validity.reasons@;
        validity.invalidate_if(measured == 0, Reason::NoIntervals);
        validity.invalidate_if(
            self.clock_steps > 0,
            Reason::ClockSteps { steps: self.clock_steps },
        );
        assert(validity.reasons@ =~= before + self.clock_reasons());
    }

    fn judge_mock(&self, validity: &mut Validity)
        requires
            old(validity).wf(),
        ensures
            final(validity).wf(),
            final(validity).reasons@ == old(validity).reasons@ + self.mock_reasons(),
    {
        match find_summary(&self.summary, Metric::MockWriteLag) {
            Some(lag) => {
                validity.invalidate_if(
                    lag.p99_ns >= self.mock_lag_limit_ns,
                    Reason::MockWriteLag {
                        mock_p99_ns: lag.p99_ns,
                        mock_limit_ns: self.mock_lag_limit_ns,
                    },
                );
            },
            None => {
                validity.invalidate_if(self.markers_expected, Reason::NoMockWriteLag);
            },
        }
    }

    fn judge_emit(&self, validity: &mut Validity)
        requires
            old(validity).wf(),
        ensures
            final(validity).wf(),
            final(validity).reasons@ == old(validity).reasons@ + self.emit_reasons(),
    {
        let ghost before = validity.reasons@;
        if let Some(lag) = find_summary(&self.summary, Metric::EmitLag) {
            validity.invalidate_if(
                lag.p99_ns >= EMIT_LAG_P99_LIMIT_NS,
                Reason::EmitLag {
                    far_tail: false,
                    lag_ns: lag.p99_ns,
                    sends: lag.count,
                    misses: self.misses,
                },
            );
            validity.invalidate_if(
                lag.p999_ns >= EMIT_LAG_P999_LIMIT_NS,
                Reason::EmitLag {
                    far_tail: true,
                    lag_ns: lag.p999_ns,
                    sends: lag.count,
                    misses: self.misses,
                },
            );
        }
        assert(validity.reasons@ =~= before + self.emit_reasons());
    }

    fn judge_spans(&self, validity: &mut Validity, negative: u64)
        requires
            self.countable(),
            old(validity).wf(),
            negative == negative_sum(self.intervals@, self.warmup_intervals),
        ensures
            final(validity).wf(),
            final(validity).reasons@ == old(validity).reasons@ + self.span_reasons(),
    {
        let ghost before = validity.reasons@;
        validity.invalidate_if(
            self.timestamps_required && self.counters.rx_batches_without_timestamp > 0,
            Reason::NoTimestamps {
                without: self.counters.rx_batches_without_timestamp,
                batches: self.counters.rx_batches,
            },
        );
        let samples: u64 = negative_span_denominator(&self.summary);
        validity.invalidate_if(
            1_000 * (negative as u128) > samples as u128,
            Reason::NegativeSpans { negative, samples },
        );
        assert(validity.reasons@ =~= before + self.span_reasons());
    }

    fn judge_load(&self, validity: &mut Validity)
        requires
            old(validity).wf(),
        ensures
            final(validity).wf(),
            final(validity).reasons@ == old(validity).reasons@ + self.load_reasons(),
    {
        let ghost before = validity.reasons@;
        if let Some(load) = self.load {
            validity.invalidate_if(load.too_many_deviating(), Reason::Load { load });
        } else {
            assert(before + Seq::<Reason>::empty() =~= before);
        }
    }

    fn judge_outcomes(&self, validity: &mut Validity, measured: usize)
        requires
            self.countable(),
            old(validity).wf(),
            measured == measured_count(self.intervals@, self.warmup_intervals),
        ensures
            final(validity).wf(),
            final(validity).reasons@ == old(validity).reasons@ + self.outcome_reasons(),
    {
        let ghost before = validity.reasons@;
        let outcomes = Outcomes::of(&self.intervals, self.warmup_intervals);
        validity.invalidate_if(measured > 0 && outcomes.requests == 0, Reason::NoRequests);
        let total: u64 = outcomes.requests + outcomes.failures;
        validity.invalidate_if(
            1_000 * (outcomes.failures as u128) > total as u128,
            Reason::Failures { failures: outcomes.failures, requests: total },
        );
        validity.invalidate_if(
            1_000 * (outcomes.stale_retries as u128) > outcomes.requests as u128,
            Reason::StaleRetries { retries: outcomes.stale_retries, completed: outcomes.requests },
        );
        assert(validity.reasons@ =~= before + self.outcome_reasons());
    }
}

/// Applies every validity rule.
pub fn evaluate(evidence: &Evidence) -> (r: Validity)
    requires
        evidence.countable(),
    ensures
        r.wf(),
        r.reasons@ == evidence.reasons(),
        r.valid ==> evidence.clock_steps == 0,
{
    let mut validity = Validity::new();
    let (measured, negative) = evidence.measured();
    evidence.judge_clock(&mut validity, measured);
    assert(validity.reasons@ =~= evidence.clock_reasons());
    evidence.judge_mock(&mut validity);
    evidence.judge_emit(&mut validity);
    evidence.judge_spans(&mut validity, negative);
    evidence.judge_load(&mut validity);
    evidence.judge_outcomes(&mut validity, measured);
    validity
}

/// The request slip of a run: how many samples, and their p99.
#[derive(Debug, Clone, Copy, PartialEq, Eq, Structural)]
pub struct SlipSummary {
    /// Samples.
    pub count: u64,
    /// 99th percentile.
    pub p99_ns: u64,
}

/// Invalidates the run when the request slip p99 reaches `limit_ns`, or when
/// no slip was measured at all: the rule must not pass for lack of evidence.
pub fn check_slip(validity: &mut Validity, slip: Option<SlipSummary>, limit_ns: u64)
    requires
        old(validity).wf(),
    ensures
        final(validity).wf(),
        final(validity).reasons@ == old(validity).reasons@ + match slip {
            Some(slip) => reason_if(
                slip.p99_ns >= limit_ns,
                Reason::Slip {
                    slip_p99_ns: slip.p99_ns,
                    slip_limit_ns: limit_ns,
                    count: slip.count,
                },
            ),
            None => seq![Reason::NoSlip],
        },
{
    match slip {
        Some(slip) => {
            validity.invalidate_if(
                slip.p99_ns >= limit_ns,
                Reason::Slip {
                    slip_p99_ns: slip.p99_ns,
                    slip_limit_ns: limit_ns,
                    count: slip.count,
                },
            );
        },
        None => {
            validity.invalidate_if(true, Reason::NoSlip);
        },
    }
}

/// Figures of a reason that have decimals, rendered.
#[derive(Debug)]
pub struct ReasonFigures {
    /// The value, microseconds.
    pub value_us: String,
    /// Its limit, microseconds.
    pub limit_us: String,
    /// The largest deadline miss, microseconds.
    pub worst_us: String,
}

impl Misses {
    /// Why sends went out late.
    pub open spec fn cause(self, sends: u64, worst_us: Seq<char>) -> Seq<char> {
        if self.late_wakeups + self.busy_loop_misses == 0 {
            "no send missed its spin window, so the thread lost the CPU while spinning or sending"@
        } else {
            text::decimal_chars((self.late_wakeups + self.busy_loop_misses) as nat) + " of "@
                + text::decimal_chars(sends as nat)
                + " sends were reached after their deadline ("@ + text::decimal_chars(
                self.late_wakeups as nat,
            ) + " late wake-ups, "@ + text::decimal_chars(self.busy_loop_misses as nat)
                + " behind other events, worst by "@ + worst_us
                + " us); a longer --spin-us absorbs late wake-ups"@
        }
    }

    /// Why sends went out late, from the deadline misses.
    pub fn emit_lag_cause(&self, sends: u64, worst_us: &str) -> (r: String)
        requires
            self.late_wakeups + self.busy_loop_misses <= u64::MAX,
        ensures
            r@ == self.cause(sends, worst_us@),
    {
        let misses: u64 = self.late_wakeups + self.busy_loop_misses;
        if misses == 0 {
            return String::from_str(
                "no send missed its spin window, so the thread lost the CPU while spinning or sending",
            );
        }
        let mut s = String::new();
        push_decimal(&mut s, misses);
        s.append(" of ");
        push_decimal(&mut s, sends);
        s.append(" sends were reached after their deadline (");
        push_decimal(&mut s, self.late_wakeups);
        s.append(" late wake-ups, ");
        push_decimal(&mut s, self.busy_loop_misses);
        s.append(" behind other events, worst by ");
        s.append(worst_us);
        s.append(" us); a longer --spin-us absorbs late wake-ups");
        assert(s@ =~= self.cause(sends, worst_us@));
        s
    }
}

/// The figures of a reason that are shown with decimals, in nanoseconds.
#[derive(Debug, Clone, Copy, PartialEq, Eq, Structural)]
pub struct RawFigures {
    /// The value.
    pub value_ns: u64,
    /// Its limit.
    pub limit_ns: u64,
    /// The largest deadline miss.
    pub worst_ns: u64,
}

impl Reason {
    /// The value that broke a rule, the limit of the rule and the largest
    /// deadline miss behind it; zero where the reason has none.
    pub open spec fn raw(self) -> RawFigures {
        match self {
            Reason::MockWriteLag { mock_p99_ns, mock_limit_ns } => RawFigures {
                value_ns: mock_p99_ns,
                limit_ns: mock_limit_ns,
                worst_ns: 0,
            },
            Reason::EmitLag { far_tail, lag_ns, misses, .. } => RawFigures {
                value_ns: lag_ns,
                limit_ns: if far_tail {
                    EMIT_LAG_P999_LIMIT_NS
                } else {
                    EMIT_LAG_P99_LIMIT_NS
                },
                worst_ns: misses.max_deadline_miss_ns,
            },
            Reason::Slip { slip_p99_ns, slip_limit_ns, .. } => RawFigures {
                value_ns: slip_p99_ns,
                limit_ns: slip_limit_ns,
                worst_ns: 0,
            },
            _ => RawFigures { value_ns: 0, limit_ns: 0, worst_ns: 0 },
        }
    }

    /// The figures to render for [`message`](Self::message).
    pub fn raw_figures(&self) -> (r: RawFigures)
        ensures
            r == self.raw(),
    {
        match self {
            Reason::MockWriteLag { mock_p99_ns, mock_limit_ns } => RawFigures {
                value_ns: *mock_p99_ns,
                limit_ns: *mock_limit_ns,
                worst_ns: 0,
            },
            Reason::EmitLag { far_tail, lag_ns, misses, .. } => RawFigures {
                value_ns: *lag_ns,
                limit_ns: if *far_tail {
                    EMIT_LAG_P999_LIMIT_NS
                } else {
                    EMIT_LAG_P99_LIMIT_NS
                },
                worst_ns: misses.max_deadline_miss_ns,
            },
            Reason::Slip { slip_p99_ns, slip_limit_ns, .. } => RawFigures {
                value_ns: *slip_p99_ns,
                limit_ns: *slip_limit_ns,
                worst_ns: 0,
            },
            _ => RawFigures { value_ns: 0, limit_ns: 0, worst_ns: 0 },
        }
    }

    /// The deadline misses it names can be added up.
    pub open spec fn tellable(self) -> bool {
        self matches Reason::EmitLag { misses, .. } ==> misses.late_wakeups
            + misses.busy_loop_misses <= u64::MAX
    }

    /// What the reason says.
    pub open spec fn text(self, figures: ReasonFigures) -> Seq<char> {
        match self {
            Reason::NoIntervals => "no intervals after the warmup"@,
            Reason::ClockSteps { steps } => "CLOCK_REALTIME stepped "@ + text::decimal_chars(
                steps as nat,
            ) + " time(s) during the run; kernel receive timestamps are unreliable"@,
            Reason::MockWriteLag { .. } => "mock write lag p99 "@ + figures.value_us@
                + " us is not below "@ + figures.limit_us@ + " us"@,
            Reason::NoMockWriteLag => "no mock write lag samples after the warmup"@,
            Reason::EmitLag { far_tail, sends, misses, .. } => (if far_tail {
                "emit lag p99.9 "@
            } else {
                "emit lag p99 "@
            }) + figures.value_us@ + " us over "@ + text::decimal_chars(sends as nat)
                + " sends is not below "@ + figures.limit_us@
                + " us: the load generator fell behind its schedule; "@ + misses.cause(
                sends,
                figures.worst_us@,
            ),
            Reason::NoTimestamps { without, batches } => text::decimal_chars(without as nat)
                + " of "@ + text::decimal_chars(batches as nat)
                + " receives carried no kernel timestamp"@,
            Reason::NegativeSpans { negative, samples } => text::decimal_chars(negative as nat)
                + " of "@ + text::decimal_chars(samples as nat)
                + " spans after the warmup ended before they started (more than 0.1%); the clock conversion is off"@,
            Reason::Load { load } => text::decimal_chars(load.deviating as nat) + " of "@
                + text::decimal_chars(load.checked_intervals as nat)
                + " intervals deviate from the offered load by more than 5% (concurrency "@
                + text::decimal_chars(load.concurrency_deviating as nat) + ", chunk rate "@
                + text::decimal_chars(load.chunk_rate_deviating as nat) + "); at most 1% may"@,
            Reason::NoRequests => "no request completed after the warmup"@,
            Reason::Failures { failures, requests } => text::decimal_chars(failures as nat)
                + " of "@ + text::decimal_chars(requests as nat)
                + " requests after the warmup failed (more than 0.1%)"@,
            Reason::StaleRetries { retries, completed } => text::decimal_chars(retries as nat)
                + " stale keep-alive retries for "@ + text::decimal_chars(completed as nat)
                + " requests after the warmup (more than 0.1%); the server closes connections it was sent requests on"@,
            Reason::Slip { count, .. } => "request slip p99 "@ + figures.value_us@ + " us over "@
                + text::decimal_chars(count as nat) + " requests is not below "@
                + figures.limit_us@
                + " us: requests wait at the mock before it reads them, and TTFT measures that wait"@,
            Reason::NoSlip => "no request slip samples after the warmup"@,
        }
    }

    /// What the reason says, with its figures that have decimals.
    pub fn message(&self, figures: &ReasonFigures) -> (r: String)
        requires
            self.tellable(),
        ensures
            r@ == self.text(*figures),
    {
        let mut s = String::new();
        match self {
            Reason::NoIntervals => {
                s.append("no intervals after the warmup");
            },
            Reason::ClockSteps { steps } => {
                s.append("CLOCK_REALTIME stepped ");
                push_decimal(&mut s, *steps);
                s.append(" time(s) during the run; kernel receive timestamps are unreliable");
            },
            Reason::MockWriteLag { .. } => {
                s.append("mock write lag p99 ");
                s.append(&figures.value_us);
                s.append(" us is not below ");
                s.append(&figures.limit_us);
                s.append(" us");
            },
            Reason::NoMockWriteLag => {
                s.append("no mock write lag samples after the warmup");
            },
            Reason::EmitLag { far_tail, sends, misses, .. } => {
                if *far_tail {
                    s.append("emit lag p99.9 ");
                } else {
                    s.append("emit lag p99 ");
                }
                s.append(&figures.value_us);
                s.append(" us over ");
                push_decimal(&mut s, *sends);
                s.append(" sends is not below ");
                s.append(&figures.limit_us);
                s.append(" us: the load generator fell behind its schedule; ");
                let cause = misses.emit_lag_cause(*sends, &figures.worst_us);
                s.append(&cause);
            },
            Reason::NoTimestamps { without, batches } => {
                push_decimal(&mut s, *without);
                s.append(" of ");
                push_decimal(&mut s, *batches);
                s.append(" receives carried no kernel timestamp");
            },
            Reason::NegativeSpans { negative, samples } => {
                push_decimal(&mut s, *negative);
                s.append(" of ");
                push_decimal(&mut s, *samples);
                s.append(
                    " spans after the warmup ended before they started (more than 0.1%); the clock conversion is off",
                );
            },
            Reason::Load { load } => {
                push_decimal(&mut s, load.deviating);
                s.append(" of ");
                push_decimal(&mut s, load.checked_intervals);
                s.append(" intervals deviate from the offered load by more than 5% (concurrency ");
                push_decimal(&mut s, load.concurrency_deviating);
                s.append(", chunk rate ");
                push_decimal(&mut s, load.chunk_rate_deviating);
                s.append("); at most 1% may");
            },
            Reason::NoRequests => {
                s.append("no request completed after the warmup");
            },
            Reason::Failures { failures, requests } => {
                push_decimal(&mut s, *failures);
                s.append(" of ");
                push_decimal(&mut s, *requests);
                s.append(" requests after the warmup failed (more than 0.1%)");
            },
            Reason::StaleRetries { retries, completed } => {
                push_decimal(&mut s, *retries);
                s.append(" stale keep-alive retries for ");
                push_decimal(&mut s, *completed);
                s.append(
                    " requests after the warmup (more than 0.1%); the server closes connections it was sent requests on",
                );
            },
            Reason::Slip { count, .. } => {
                s.append("request slip p99 ");
                s.append(&figures.value_us);
                s.append(" us over ");
                push_decimal(&mut s, *count);
                s.append(" requests is not below ");
                s.append(&figures.limit_us);
                s.append(
                    " us: requests wait at the mock before it reads them, and TTFT measures that wait",
                );
            },
            Reason::NoSlip => {
                s.append("no request slip samples after the warmup");
            },
        }
        assert(s@ =~= self.text(*figures));
        s
    }
}

/// One `selfcheck` criterion.
#[derive(Debug, Clone, Copy, PartialEq, Eq, Structural)]
pub enum CriterionKind {
    /// The emit lag p99 is below its limit.
    EmitLagP99,
    /// The mock write lag p99 is below its limit.
    MockWriteLagP99,
    /// The request slip p99 is below its limit.
    RequestSlipP99,
    /// Every interval's concurrency is within 5% of the offered load.
    ConcurrencyDeviation,
    /// The mean concurrency is within 5% of the nominal one.
    NominalConcurrency,
    /// The run is valid.
    RunValid,
}

impl CriterionKind {
    /// Name of the criterion.
    pub fn name(self) -> (r: &'static str)
        ensures
            r@ == match self {
                CriterionKind::EmitLagP99 => "emit_lag_p99"@,
                CriterionKind::MockWriteLagP99 => "mock_write_lag_p99"@,
                CriterionKind::RequestSlipP99 => "request_slip_p99"@,
                CriterionKind::ConcurrencyDeviation => "concurrency_deviation"@,
                CriterionKind::NominalConcurrency => "nominal_concurrency"@,
                CriterionKind::RunValid => "run_valid"@,
            },
    {
        match self {
            CriterionKind::EmitLagP99 => "emit_lag_p99",
            CriterionKind::MockWriteLagP99 => "mock_write_lag_p99",
            CriterionKind::RequestSlipP99 => "request_slip_p99",
            CriterionKind::ConcurrencyDeviation => "concurrency_deviation",
            CriterionKind::NominalConcurrency => "nominal_concurrency",
            CriterionKind::RunValid => "run_valid",
        }
    }
}

/// A criterion with its outcome.
#[derive(Debug, Clone, Copy, PartialEq, Eq, Structural)]
pub struct Criterion {
    /// What is checked.
    pub kind: CriterionKind,
    /// The percentile observed, of those that have one and samples for it.
    pub observed_ns: Option<u64>,
    /// Its limit, of those that have one.
    pub limit_ns: Option<u64>,
    /// Whether the criterion holds.
    pub pass: bool,
}

/// The `selfcheck` verdict.
#[derive(Debug)]
pub struct SelfcheckVerdict {
    /// All criteria hold.
    pub pass: bool,
    /// Individual criteria.
    pub criteria: Vec<Criterion>,
}

/// Inputs of [`selfcheck`].
#[derive(Debug)]
pub struct SelfcheckEvidence {
    /// Post-warmup summary, each metric at most once.
    pub summary: Vec<MetricSummary>,
    /// Intervals compared in the load check.
    pub checked_intervals: u64,
    /// Every interval's concurrency is within 5% of the offered load.
    pub concurrency_within: bool,
    /// The mean concurrency is within 5% of the nominal one.
    pub nominal_within: bool,
    /// The request slip.
    pub slip: Option<SlipSummary>,
    /// Request slip p99 limit.
    pub slip_limit_ns: u64,
    /// Mock write lag p99 limit.
    pub mock_lag_limit_ns: u64,
    /// The run is valid.
    pub valid: bool,
}

/// A criterion on a p99.
pub open spec fn lag_criterion(kind: CriterionKind, p99: Option<u64>, limit_ns: u64) -> Criterion {
    Criterion {
        kind,
        observed_ns: p99,
        limit_ns: Some(limit_ns),
        pass: p99 matches Some(ns) && ns < limit_ns,
    }
}

/// A criterion on something else.
pub open spec fn plain_criterion(kind: CriterionKind, pass: bool) -> Criterion {
    Criterion { kind, observed_ns: None, limit_ns: None, pass }
}

/// The p99 of a metric, if it has samples.
pub open spec fn p99_of(summary: Seq<MetricSummary>, metric: Metric) -> Option<u64> {
    match summary_of(summary, metric) {
        Some(s) => Some(s.p99_ns),
        None => None,
    }
}

impl SelfcheckEvidence {
    /// The criteria in order.
    pub open spec fn criteria(self) -> Seq<Criterion> {
        seq![
            lag_criterion(
                CriterionKind::EmitLagP99,
                p99_of(self.summary@, Metric::EmitLag),
                EMIT_LAG_P99_LIMIT_NS,
            ),
            lag_criterion(
                CriterionKind::MockWriteLagP99,
                p99_of(self.summary@, Metric::MockWriteLag),
                self.mock_lag_limit_ns,
            ),
            lag_criterion(
                CriterionKind::RequestSlipP99,
                match self.slip {
                    Some(slip) => Some(slip.p99_ns),
                    None => None,
                },
                self.slip_limit_ns,
            ),
            plain_criterion(
                CriterionKind::ConcurrencyDeviation,
                self.checked_intervals > 0 && self.concurrency_within,
            ),
            plain_criterion(
                CriterionKind::NominalConcurrency,
                self.checked_intervals > 0 && self.nominal_within,
            ),
            plain_criterion(CriterionKind::RunValid, self.valid),
        ]
    }
}

fn lag(kind: CriterionKind, p99: Option<u64>, limit_ns: u64) -> (r: Criterion)
    ensures
        r == lag_criterion(kind, p99, limit_ns),
{
    let pass = match p99 {
        Some(ns) => ns < limit_ns,
        None => false,
    };
    Criterion { kind, observed_ns: p99, limit_ns: Some(limit_ns), pass }
}

fn find_p99(summary: &[MetricSummary], metric: Metric) -> (r: Option<u64>)
    ensures
        r == p99_of(summary@, metric),
{
    match find_summary(summary, metric) {
        Some(s) => Some(s.p99_ns),
        None => None,
    }
}

/// Judges a selfcheck run: emit lag p99 below 10 us, mock write lag p99 and
/// request slip p99 below their limits, every measured interval's
/// concurrency within 5% of the offered load, the mean concurrency of the
/// run within 5% of the nominal target, and the run valid. What has no
/// samples does not pass.
pub fn selfcheck(evidence: &SelfcheckEvidence) -> (r: SelfcheckVerdict)
    ensures
        r.criteria@ == evidence.criteria(),
        r.pass == (forall|i: int| 0 <= i < r.criteria@.len() ==> (#[trigger] r.criteria@[i]).pass),
        r.pass ==> evidence.valid && evidence.checked_intervals > 0 && evidence.concurrency_within
            && evidence.nominal_within,
        r.pass ==> (evidence.slip matches Some(slip) && slip.p99_ns < evidence.slip_limit_ns),
{
    let slip_p99: Option<u64> = match evidence.slip {
        Some(slip) => Some(slip.p99_ns),
        None => None,
    };
    let mut criteria: Vec<Criterion> = Vec::new();
    criteria.push(
        lag(
            CriterionKind::EmitLagP99,
            find_p99(&evidence.summary, Metric::EmitLag),
            EMIT_LAG_P99_LIMIT_NS,
        ),
    );
    criteria.push(
        lag(
            CriterionKind::MockWriteLagP99,
            find_p99(&evidence.summary, Metric::MockWriteLag),
            evidence.mock_lag_limit_ns,
        ),
    );
    criteria.push(lag(CriterionKind::RequestSlipP99, slip_p99, evidence.slip_limit_ns));
    criteria.push(
        Criterion {
            kind: CriterionKind::ConcurrencyDeviation,
            observed_ns: None,
            limit_ns: None,
            pass: evidence.checked_intervals > 0 && evidence.concurrency_within,
        },
    );
    criteria.push(
        Criterion {
            kind: CriterionKind::NominalConcurrency,
            observed_ns: None,
            limit_ns: None,
            pass: evidence.checked_intervals > 0 && evidence.nominal_within,
        },
    );
    criteria.push(
        Criterion {
            kind: CriterionKind::RunValid,
            observed_ns: None,
            limit_ns: None,
            pass: evidence.valid,
        },
    );
    assert(criteria@ =~= evidence.criteria());
    let mut pass = true;
    let mut i: usize = 0;
    while i < criteria.len()
        invariant
            i <= criteria@.len(),
            pass == (forall|k: int| 0 <= k < i ==> (#[trigger] criteria@[k]).pass),
        decreases criteria@.len() - i,
    {
        if !criteria[i].pass {
            assert(!criteria@[i as int].pass);
            pass = false;
        }
        i += 1;
    }
    let verdict = SelfcheckVerdict { pass, criteria };
    proof {
        law_a_selfcheck_passes_only_on_full_evidence(*evidence, verdict);
    }
    verdict
}

/// A run with fewer failures is no less valid: where the failure rule finds
/// nothing, it finds nothing with fewer failures and as many requests.
pub proof fn law_fewer_failures_do_not_invalidate(a: Outcomes, b: Outcomes)
    requires
        !a.fails_too_often(),
        b.failures <= a.failures,
        b.requests >= a.requests,
    ensures
        !b.fails_too_often(),
{
}

/// The summary at `i` is the first of its metric.
pub open spec fn is_first_of(summary: Seq<MetricSummary>, metric: Metric, i: int) -> bool {
    &&& 0 <= i < summary.len()
    &&& summary[i].metric == metric
    &&& forall|j: int| 0 <= j < i ==> (#[trigger] summary[j]).metric != metric
}

/// The metric has a summary.
pub open spec fn is_summarised(summary: Seq<MetricSummary>, metric: Metric) -> bool {
    exists|i: int| 0 <= i < summary.len() && (#[trigger] summary[i]).metric == metric
}

/// The summary found of a metric is the first one of that metric, and none is
/// found only where there is none.
pub proof fn law_the_summary_found_is_of_its_metric(
    summary: Seq<MetricSummary>,
    metric: Metric,
)
    ensures
        match summary_of(summary, metric) {
            Some(found) => exists|i: int|
                #[trigger] is_first_of(summary, metric, i) && summary[i] == found,
            None => !is_summarised(summary, metric),
        },
        forall|i: int| #[trigger]
            is_first_of(summary, metric, i) ==> summary_of(summary, metric) == Some(summary[i]),
    decreases summary.len(),
{
    if summary.len() > 0 {
        let rest = summary.drop_last();
        law_the_summary_found_is_of_its_metric(rest, metric);
        match summary_of(rest, metric) {
            Some(found) => {
                let i = choose|i: int| #[trigger] is_first_of(rest, metric, i) && rest[i] == found;
                assert(is_first_of(summary, metric, i)) by {
                    assert forall|j: int| 0 <= j < i implies (#[trigger] summary[j]).metric
                        != metric by {
                        assert(rest[j] == summary[j]);
                    }
                }
                assert forall|k: int| #[trigger] is_first_of(summary, metric, k) implies summary[k]
                    == found by {
                    if k < i {
                        assert(rest[k] == summary[k]);
                    } else if k > i {
                        assert(summary[i].metric == metric);
                    }
                }
            },
            None => {
                assert forall|j: int| 0 <= j < rest.len() implies (#[trigger] summary[j]).metric
                    != metric by {
                    assert(rest[j] == summary[j]);
                }
                if summary.last().metric == metric {
                    assert(is_first_of(summary, metric, summary.len() - 1));
                }
            },
        }
    }
}

/// Every metric that has a summary has a first one.
proof fn lemma_summarised(summary: Seq<MetricSummary>, metric: Metric)
    ensures
        summary_of(summary, metric) is Some <==> is_summarised(summary, metric),
{
    law_the_summary_found_is_of_its_metric(summary, metric);
}

/// A selfcheck passes exactly when the run was judged valid, intervals were
/// compared and both concurrency conditions hold, and each of the three lags
/// has a p99, below its limit: 10 us for the emit lag, the given ones for the
/// mock write lag and the request slip. Nothing passes for lack of evidence.
pub proof fn law_a_selfcheck_passes_only_on_full_evidence(
    evidence: SelfcheckEvidence,
    r: SelfcheckVerdict,
)
    requires
        r.criteria@ == evidence.criteria(),
        r.pass == (forall|i: int| 0 <= i < r.criteria@.len() ==> (#[trigger] r.criteria@[i]).pass),
    ensures
        r.pass <==> {
            &&& evidence.valid
            &&& evidence.checked_intervals > 0
            &&& evidence.concurrency_within
            &&& evidence.nominal_within
            &&& evidence.slip matches Some(slip) && slip.p99_ns < evidence.slip_limit_ns
            &&& is_summarised(evidence.summary@, Metric::EmitLag)
            &&& is_summarised(evidence.summary@, Metric::MockWriteLag)
            &&& forall|i: int| #[trigger]
                is_first_of(evidence.summary@, Metric::EmitLag, i)
                    ==> evidence.summary@[i].p99_ns < 10_000
            &&& forall|i: int| #[trigger]
                is_first_of(evidence.summary@, Metric::MockWriteLag, i)
                    ==> evidence.summary@[i].p99_ns < evidence.mock_lag_limit_ns
        },
{
    law_the_summary_found_is_of_its_metric(evidence.summary@, Metric::EmitLag);
    law_the_summary_found_is_of_its_metric(evidence.summary@, Metric::MockWriteLag);
    lemma_summarised(evidence.summary@, Metric::EmitLag);
    lemma_summarised(evidence.summary@, Metric::MockWriteLag);
    let c = r.criteria@;
    assert(r.pass <==> c[0].pass && c[1].pass && c[2].pass && c[3].pass && c[4].pass && c[5].pass)
        by {
        if c[0].pass && c[1].pass && c[2].pass && c[3].pass && c[4].pass && c[5].pass {
            assert forall|i: int| 0 <= i < c.len() implies (#[trigger] c[i]).pass by {
                assert(i == 0 || i == 1 || i == 2 || i == 3 || i == 4 || i == 5);
            }
        }
    }
}

/// One more interval adds its own requests, failures, stale retries and
/// negative spans to the sums, and counts as measured, exactly when it comes
/// after the warmup.
pub proof fn law_only_intervals_after_the_warmup_count(
    intervals: Seq<Interval>,
    warmup: u64,
    more: Interval,
)
    ensures
        ({
            let was = outcome_sums(intervals, warmup);
            let is = outcome_sums(intervals.push(more), warmup);
            let counts = more.index >= warmup;
            &&& is.0 == was.0 + if counts {
                more.requests as int
            } else {
                0
            }
            &&& is.1 == was.1 + if counts {
                errors_sum(more.errors@, false)
            } else {
                0
            }
            &&& is.2 == was.2 + if counts {
                errors_sum(more.errors@, true)
            } else {
                0
            }
            &&& negative_sum(intervals.push(more), warmup) == negative_sum(intervals, warmup)
                + if counts {
                more.negative as int
            } else {
                0
            }
            &&& measured_count(intervals.push(more), warmup) == measured_count(intervals, warmup)
                + if counts {
                1int
            } else {
                0
            }
            &&& outcome_sums(Seq::empty(), warmup) == (0int, 0int, 0int)
            &&& negative_sum(Seq::empty(), warmup) == 0
            &&& measured_count(Seq::empty(), warmup) == 0
        }),
{
    assert(intervals.push(more).drop_last() =~= intervals);
}

/// An error counts as a stale retry exactly when that is its name, and as a
/// failure otherwise: never as both, and never as neither.
pub proof fn law_an_error_is_a_failure_or_a_stale_retry(
    errors: Seq<(String, u64)>,
    more: (String, u64),
)
    ensures
        ({
            let stale = more.0@ == "stale_retry"@;
            &&& errors_sum(errors.push(more), true) == errors_sum(errors, true) + if stale {
                more.1 as int
            } else {
                0
            }
            &&& errors_sum(errors.push(more), false) == errors_sum(errors, false) + if stale {
                0
            } else {
                more.1 as int
            }
            &&& errors_sum(Seq::empty(), true) == 0
            &&& errors_sum(Seq::empty(), false) == 0
        }),
{
    assert(errors.push(more).drop_last() =~= errors);
}

/// The run has an interval after the warmup exactly when some interval is
/// measured.
proof fn lemma_measured(intervals: Seq<Interval>, warmup: u64)
    ensures
        measured_count(intervals, warmup) > 0 <==> exists|i: int|
            0 <= i < intervals.len() && (#[trigger] intervals[i]).index >= warmup,
    decreases intervals.len(),
{
    if intervals.len() > 0 {
        let rest = intervals.drop_last();
        lemma_measured(rest, warmup);
        assert forall|i: int| 0 <= i < rest.len() implies #[trigger] rest[i] == intervals[i] by {}
        if intervals.last().index >= warmup {
            assert(intervals[intervals.len() - 1].index >= warmup);
        }
        if exists|i: int| 0 <= i < intervals.len() && (#[trigger] intervals[i]).index >= warmup {
            let i = choose|i: int|
                0 <= i < intervals.len() && (#[trigger] intervals[i]).index >= warmup;
            if i < rest.len() {
                assert(rest[i].index >= warmup);
            }
        }
        if exists|i: int| 0 <= i < rest.len() && (#[trigger] rest[i]).index >= warmup {
            let i = choose|i: int| 0 <= i < rest.len() && (#[trigger] rest[i]).index >= warmup;
            assert(intervals[i].index >= warmup);
        }
    }
}

/// Some reason is given exactly when its condition holds.
proof fn lemma_quiet(holds: bool, reason: Reason)
    ensures
        reason_if(holds, reason).len() == 0 <==> !holds,
{
}

/// A run is judged valid exactly when nothing speaks against it: it has an
/// interval after the warmup and completed a request in one; the clock did
/// not step; the mock write lag p99 is below its limit, and known where it
/// has to be; the emit lag p99 is below 10 us and its p99.9 below 1 ms; no
/// receive lacks a timestamp that is required; at most 0.1% of the spans are
/// negative; at most 1% of the intervals compared deviate; at most 0.1% of the
/// requests failed, and at most 0.1% as many were retried as completed.
pub proof fn law_a_run_is_valid_when_nothing_speaks_against_it(evidence: Evidence, r: Validity)
    requires
        evidence.countable(),
        r.wf(),
        r.reasons@ == evidence.reasons(),
    ensures
        ({
            let sums = outcome_sums(evidence.intervals@, evidence.warmup_intervals);
            let negative = negative_sum(evidence.intervals@, evidence.warmup_intervals);
            let samples = span_count(evidence.summary@);
            r.valid <==> {
                &&& exists|i: int|
                    0 <= i < evidence.intervals@.len() && (#[trigger] evidence.intervals@[i]).index
                        >= evidence.warmup_intervals
                &&& sums.0 > 0
                &&& evidence.clock_steps == 0
                &&& forall|i: int| #[trigger]
                    is_first_of(evidence.summary@, Metric::MockWriteLag, i)
                        ==> evidence.summary@[i].p99_ns < evidence.mock_lag_limit_ns
                &&& evidence.markers_expected ==> is_summarised(
                    evidence.summary@,
                    Metric::MockWriteLag,
                )
                &&& forall|i: int| #[trigger]
                    is_first_of(evidence.summary@, Metric::EmitLag, i)
                        ==> evidence.summary@[i].p99_ns < 10_000 && evidence.summary@[i].p999_ns
                        < 1_000_000
                &&& evidence.timestamps_required
                    ==> evidence.counters.rx_batches_without_timestamp == 0
                &&& 1_000 * negative <= samples
                &&& evidence.load matches Some(load) ==> 100 * load.deviating
                    <= load.checked_intervals
                &&& 1_000 * sums.1 <= sums.0 + sums.1
                &&& 1_000 * sums.2 <= sums.0
            }
        }),
{
    lemma_measured(evidence.intervals@, evidence.warmup_intervals);
    lemma_sums_are_counts(evidence.intervals@, evidence.warmup_intervals);
    law_the_summary_found_is_of_its_metric(evidence.summary@, Metric::MockWriteLag);
    law_the_summary_found_is_of_its_metric(evidence.summary@, Metric::EmitLag);
    lemma_summarised(evidence.summary@, Metric::MockWriteLag);
    lemma_summarised(evidence.summary@, Metric::EmitLag);
}

/// A run is not made valid by a check of its slip, and stays valid only where
/// a slip was measured and its p99 is below the limit.
pub proof fn law_a_slip_must_be_known_and_small(
    before: Validity,
    slip: Option<SlipSummary>,
    limit_ns: u64,
    after: Validity,
)
    requires
        before.wf(),
        after.wf(),
        after.reasons@ == before.reasons@ + match slip {
            Some(slip) => reason_if(
                slip.p99_ns >= limit_ns,
                Reason::Slip {
                    slip_p99_ns: slip.p99_ns,
                    slip_limit_ns: limit_ns,
                    count: slip.count,
                },
            ),
            None => seq![Reason::NoSlip],
        },
    ensures
        after.valid <==> before.valid && (slip matches Some(s) && s.p99_ns < limit_ns),
{
}

/// A count deviates exactly when it lies outside 95% to 105% of what was
/// planned, however that is rounded; where nothing was planned, anything
/// does.
pub proof fn law_a_deviation_is_more_than_five_percent(actual: int, planned: int)
    requires
        actual >= 0,
        planned >= 0,
    ensures
        deviates(actual, planned) <==> !(95 * planned <= 100 * actual <= 105 * planned),
{
}

/// An interval is compared exactly when it is a full second and comes after
/// the warmup, and deviates when its concurrency or its chunk count does.
pub proof fn law_a_deviating_interval_counts_once(
    intervals: Seq<Interval>,
    planned: Seq<PlannedChunks>,
    warmup: u64,
    more: Interval,
)
    ensures
        ({
            let was = load_counts(intervals, planned, warmup);
            let is = load_counts(intervals.push(more), planned, warmup);
            let compared = more.index >= warmup && more.duration_ns == 1_000_000_000;
            let due = planned_for(planned, more.index) as int;
            let chunks = !(95 * due <= 100 * more.chunks <= 105 * due);
            &&& is.0 == was.0 + if compared {
                1nat
            } else {
                0
            }
            &&& is.1 == was.1 + if compared && more.concurrency_deviates {
                1nat
            } else {
                0
            }
            &&& is.2 == was.2 + if compared && chunks {
                1nat
            } else {
                0
            }
            &&& is.3 == was.3 + if compared && (more.concurrency_deviates || chunks) {
                1nat
            } else {
                0
            }
        }),
{
    assert(intervals.push(more).drop_last() =~= intervals);
    law_a_deviation_is_more_than_five_percent(
        more.chunks as int,
        planned_for(planned, more.index) as int,
    );
}

/// What is planned for an interval is what the plan says of that interval.
pub proof fn law_the_plan_of_an_interval_is_its_own(planned: Seq<PlannedChunks>, i: int)
    requires
        0 <= i < planned.len(),
        forall|j: int, k: int|
            0 <= j < k < planned.len() ==> (#[trigger] planned[j]).index != (
            #[trigger] planned[k]).index,
    ensures
        planned_for(planned, planned[i].index) == planned[i].chunks,
    decreases planned.len(),
{
    if i < planned.len() - 1 {
        let rest = planned.drop_last();
        assert(rest[i] == planned[i]);
        assert(planned[planned.len() - 1].index != planned[i].index);
        assert forall|j: int, k: int| 0 <= j < k < rest.len() implies (#[trigger] rest[j]).index
            != (#[trigger] rest[k]).index by {
            assert(rest[j] == planned[j] && rest[k] == planned[k]);
        }
        law_the_plan_of_an_interval_is_its_own(rest, i);
    }
}

/// The reason states what was measured and holds of it: a lag with its
/// percentile at or above the limit, counts with the larger one in
/// proportion, and a missing figure that is missing.
pub open spec fn states_what_was_found(evidence: Evidence, reason: Reason) -> bool {
    let sums = outcome_sums(evidence.intervals@, evidence.warmup_intervals);
    match reason {
        Reason::NoIntervals => measured_count(evidence.intervals@, evidence.warmup_intervals) == 0,
        Reason::ClockSteps { steps } => steps == evidence.clock_steps && steps > 0,
        Reason::MockWriteLag { mock_p99_ns, mock_limit_ns } => mock_limit_ns
            == evidence.mock_lag_limit_ns && mock_p99_ns >= mock_limit_ns && exists|k: int|
            #[trigger] is_first_of(evidence.summary@, Metric::MockWriteLag, k)
                && evidence.summary@[k].p99_ns == mock_p99_ns,
        Reason::NoMockWriteLag => evidence.markers_expected && !is_summarised(
            evidence.summary@,
            Metric::MockWriteLag,
        ),
        Reason::EmitLag { far_tail, lag_ns, sends, misses } => misses == evidence.misses && exists|
            k: int,
        | #[trigger]
            is_first_of(evidence.summary@, Metric::EmitLag, k) && sends
                == evidence.summary@[k].count && (far_tail ==> lag_ns
                == evidence.summary@[k].p999_ns && lag_ns >= 1_000_000) && (!far_tail ==> lag_ns
                == evidence.summary@[k].p99_ns && lag_ns >= 10_000),
        Reason::NoTimestamps { without, batches } => evidence.timestamps_required && without > 0
            && without == evidence.counters.rx_batches_without_timestamp && batches
            == evidence.counters.rx_batches,
        Reason::NegativeSpans { negative, samples } => negative == negative_sum(
            evidence.intervals@,
            evidence.warmup_intervals,
        ) && samples == span_count(evidence.summary@) && 1_000 * negative > samples,
        Reason::Load { load } => evidence.load == Some(load) && 100 * load.deviating
            > load.checked_intervals,
        Reason::NoRequests => sums.0 == 0,
        Reason::Failures { failures, requests } => failures == sums.1 && requests == sums.0
            + sums.1 && 1_000 * failures > requests,
        Reason::StaleRetries { retries, completed } => retries == sums.2 && completed == sums.0
            && 1_000 * retries > completed,
        Reason::Slip { .. } => false,
        Reason::NoSlip => false,
    }
}

proof fn lemma_lags_are_found(evidence: Evidence)
    ensures
        forall|j: int|
            0 <= j < evidence.mock_reasons().len() ==> states_what_was_found(
                evidence,
                #[trigger] evidence.mock_reasons()[j],
            ),
        forall|j: int|
            0 <= j < evidence.emit_reasons().len() ==> states_what_was_found(
                evidence,
                #[trigger] evidence.emit_reasons()[j],
            ),
{
    law_the_summary_found_is_of_its_metric(evidence.summary@, Metric::MockWriteLag);
    law_the_summary_found_is_of_its_metric(evidence.summary@, Metric::EmitLag);
}

proof fn lemma_counts_are_found(evidence: Evidence)
    requires
        evidence.countable(),
    ensures
        forall|j: int|
            0 <= j < evidence.clock_reasons().len() ==> states_what_was_found(
                evidence,
                #[trigger] evidence.clock_reasons()[j],
            ),
        forall|j: int|
            0 <= j < evidence.span_reasons().len() ==> states_what_was_found(
                evidence,
                #[trigger] evidence.span_reasons()[j],
            ),
        forall|j: int|
            0 <= j < evidence.load_reasons().len() ==> states_what_was_found(
                evidence,
                #[trigger] evidence.load_reasons()[j],
            ),
        forall|j: int|
            0 <= j < evidence.outcome_reasons().len() ==> states_what_was_found(
                evidence,
                #[trigger] evidence.outcome_reasons()[j],
            ),
{
    lemma_sums_are_counts(evidence.intervals@, evidence.warmup_intervals);
    lemma_negative_is_a_count(evidence.intervals@, evidence.warmup_intervals);
    lemma_span_prefix(evidence.summary@, 0);
    assert(evidence.summary@.take(0) =~= Seq::<MetricSummary>::empty());
}

proof fn lemma_negative_is_a_count(intervals: Seq<Interval>, warmup: u64)
    ensures
        0 <= negative_sum(intervals, warmup),
    decreases intervals.len(),
{
    if intervals.len() > 0 {
        lemma_negative_is_a_count(intervals.drop_last(), warmup);
    }
}

/// The samples of every metric count as spans, except those of the first
/// chunk on reused connections, which are counted among the first chunks
/// already.
pub proof fn law_the_samples_of_every_metric_count_once(
    summary: Seq<MetricSummary>,
    more: MetricSummary,
)
    ensures
        span_count(Seq::empty()) == 0,
        span_count(summary.push(more)) == span_count(summary) + if more.metric
            == Metric::TtftReused {
            0
        } else {
            more.count as int
        },
{
    assert(summary.push(more).drop_last() =~= summary);
}

/// Every reason against a run states what was measured, and holds of it.
pub proof fn law_every_reason_states_what_was_found(evidence: Evidence, i: int)
    requires
        evidence.countable(),
        0 <= i < evidence.reasons().len(),
    ensures
        states_what_was_found(evidence, evidence.reasons()[i]),
{
    lemma_lags_are_found(evidence);
    lemma_counts_are_found(evidence);
    let c = evidence.clock_reasons();
    let m = evidence.mock_reasons();
    let e = evidence.emit_reasons();
    let p = evidence.span_reasons();
    let l = evidence.load_reasons();
    let o = evidence.outcome_reasons();
    let r = evidence.reasons();
    let a = (c.len() + m.len()) as int;
    let b = a + e.len();
    let d = b + p.len();
    let f = d + l.len();
    if i < c.len() {
        assert(r[i] == c[i]);
    } else if i < a {
        assert(r[i] == m[i - c.len()]);
    } else if i < b {
        assert(r[i] == e[i - a]);
    } else if i < d {
        assert(r[i] == p[i - b]);
    } else if i < f {
        assert(r[i] == l[i - d]);
    } else {
        assert(r[i] == o[i - f]);
    }
}

} // verus!
