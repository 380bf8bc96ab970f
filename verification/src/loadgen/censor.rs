//! Lower bounds of latencies whose request never completed.
//!
//! No latency is dropped because its request never completed. A request
//! abandoned at its timeout or still open when the run ends contributes the
//! elapsed time as a lower bound of every latency that was already due: TTFT
//! or request latency from the scheduled start and, once a marker has fixed
//! the mock's chunk schedule, the latency of each overdue chunk from its
//! planned time.

use crate::histogram;
use crate::histogram::{new_histogram, Bounds, Latencies};
use crate::loadgen::flight::{Mode, Request};
use crate::time;
use crate::time::earlier;
use vstd::multiset::Multiset;
use vstd::prelude::*;

verus! {

/// Latency metrics of a run.
#[derive(Debug, Clone, Copy, PartialEq, Eq, Structural)]
pub enum Metric {
    /// Scheduled start to first chunk.
    Ttft,
    /// The same, of requests on pooled connections.
    TtftReused,
    /// Planned time of a chunk to its receipt.
    ChunkLatency,
    /// Write of a chunk by the mock to its receipt.
    ChunkWire,
    /// Planned time of a chunk to its write by the mock.
    MockWriteLag,
    /// Scheduled start to send.
    EmitLag,
    /// Scheduled start to the end of the response.
    RequestLatency,
}

/// `count` samples of a lower bound.
#[derive(Debug, Clone, Copy, PartialEq, Eq, Structural)]
pub struct LowerBound {
    /// Metric it bounds.
    pub metric: Metric,
    /// The bound.
    pub value_ns: u64,
    /// How many samples have it.
    pub count: u64,
}

/// Chunks of a request that have not arrived.
pub open spec fn missing_chunks(request: Request) -> int {
    time::larger(request.chunks - request.markers, 0)
}

/// How many of `remaining` chunks, due one interval after the other, are due
/// `late` after the first.
pub open spec fn overdue_chunks(late: int, interval: int, remaining: int) -> int {
    time::smaller(late / interval + 1, remaining)
}

/// The lower bounds that a request given up on at `now` leaves.
///
/// The first response byte is due `ttft` after the scheduled start. Once a
/// marker has arrived, the next chunks are due at the mock's own schedule,
/// one interval after the other from the last marker's `t_sched`. Before the
/// first marker their planned times on the mock's clock are unknown, so only
/// the TTFT bound is left.
pub open spec fn lower_bounds(mode: Mode, request: Request, now: u64) -> Seq<LowerBound> {
    let elapsed = (now - request.sched_ns) as u64;
    match mode {
        Mode::Whole { ttft_ns, .. } => if now >= time::capped(request.sched_ns + ttft_ns) {
            seq![LowerBound { metric: Metric::RequestLatency, value_ns: elapsed, count: 1 }]
        } else {
            Seq::empty()
        },
        Mode::Stream { ttft_ns, interval_ns } => if request.markers == 0 {
            if now < time::capped(request.sched_ns + ttft_ns) {
                Seq::empty()
            } else if request.fresh {
                seq![LowerBound { metric: Metric::Ttft, value_ns: elapsed, count: 1 }]
            } else {
                seq![
                    LowerBound { metric: Metric::Ttft, value_ns: elapsed, count: 1 },
                    LowerBound { metric: Metric::TtftReused, value_ns: elapsed, count: 1 },
                ]
            }
        } else {
            let remaining = missing_chunks(request);
            let first_due = time::capped(request.last_marker_sched + interval_ns);
            let late = now - first_due;
            if remaining == 0 || late < 0 {
                Seq::empty()
            } else if interval_ns == 0 {
                seq![
                    LowerBound {
                        metric: Metric::ChunkLatency,
                        value_ns: late as u64,
                        count: remaining as u64,
                    },
                ]
            } else {
                Seq::new(
                    overdue_chunks(late, interval_ns as int, remaining) as nat,
                    |k: int|
                        LowerBound {
                            metric: Metric::ChunkLatency,
                            value_ns: (late - k * interval_ns) as u64,
                            count: 1,
                        },
                )
            }
        },
    }
}

/// Samples that the bounds of a metric contribute to a histogram.
pub open spec fn contributed(
    bounds: Seq<LowerBound>,
    metric: Metric,
    histogram_bounds: (u64, u64, u8),
) -> Multiset<u64>
    decreases bounds.len(),
{
    if bounds.len() == 0 {
        Multiset::empty()
    } else {
        let rest = contributed(bounds.drop_last(), metric, histogram_bounds);
        let last = bounds.last();
        if last.metric == metric {
            rest.add(
                histogram::copies(
                    histogram::histogram_bucket(histogram_bounds, last.value_ns),
                    last.count as nat,
                ),
            )
        } else {
            rest
        }
    }
}

/// Samples above the range of a histogram.
pub open spec fn above(bounds: Seq<LowerBound>, high: u64) -> int
    decreases bounds.len(),
{
    if bounds.len() == 0 {
        0
    } else {
        above(bounds.drop_last(), high) + if bounds.last().value_ns > high {
            bounds.last().count as int
        } else {
            0
        }
    }
}

pub(crate) proof fn lemma_count_prefix(bounds: Seq<LowerBound>, n: int)
    requires
        0 <= n <= bounds.len(),
    ensures
        0 <= bound_count(bounds.take(n)) <= bound_count(bounds),
    decreases bounds.len(),
{
    if n < bounds.len() {
        lemma_count_prefix(bounds.drop_last(), n);
        assert(bounds.drop_last().take(n) =~= bounds.take(n));
    } else if bounds.len() > 0 {
        assert(bounds.take(n) =~= bounds);
        lemma_count_prefix(bounds.drop_last(), n - 1);
        assert(bounds.drop_last().take(n - 1) =~= bounds.drop_last());
    }
}

/// Samples of all bounds together.
pub open spec fn bound_count(bounds: Seq<LowerBound>) -> int
    decreases bounds.len(),
{
    if bounds.len() == 0 {
        0
    } else {
        bound_count(bounds.drop_last()) + bounds.last().count
    }
}

proof fn lemma_ones(bounds: Seq<LowerBound>)
    requires
        forall|i: int| 0 <= i < bounds.len() ==> (#[trigger] bounds[i]).count == 1,
    ensures
        bound_count(bounds) == bounds.len(),
    decreases bounds.len(),
{
    if bounds.len() > 0 {
        lemma_ones(bounds.drop_last());
    }
}

/// A request leaves at most as many bounds as it asked for chunks, or two
/// when it asked for none.
pub proof fn law_bounds_are_few(mode: Mode, request: Request, now: u64)
    ensures
        0 <= bound_count(lower_bounds(mode, request, now)) <= time::larger(
            request.chunks as int,
            2,
        ),
{
    reveal_with_fuel(bound_count, 3);
    let bounds = lower_bounds(mode, request, now);
    match mode {
        Mode::Stream { ttft_ns, interval_ns } => {
            if request.markers > 0 && interval_ns > 0 {
                lemma_ones(bounds);
            } else if bounds.len() == 1 {
                assert(bounds.drop_last() =~= Seq::empty());
            } else if bounds.len() == 2 {
                assert(bounds.drop_last().drop_last() =~= Seq::empty());
            }
        },
        Mode::Whole { .. } => {
            if bounds.len() == 1 {
                assert(bounds.drop_last() =~= Seq::empty());
            }
        },
    }
}

/// A chunk that was not due yet leaves no bound: each bound of a chunk is
/// the time since one of the planned times, none of which lies after `now`.
pub proof fn law_only_overdue_chunks_leave_a_bound(request: Request, ttft_ns: u64, interval_ns: u64, now: u64, k: int)
    requires
        request.markers > 0,
        interval_ns > 0,
        0 <= k < lower_bounds(Mode::Stream { ttft_ns, interval_ns }, request, now).len(),
    ensures
        ({
            let bound = lower_bounds(Mode::Stream { ttft_ns, interval_ns }, request, now)[k];
            let due = time::capped(request.last_marker_sched + interval_ns) + k * interval_ns;
            &&& due <= now
            &&& bound.value_ns == now - due
            &&& k < missing_chunks(request)
        }),
{
    let first_due = time::capped(request.last_marker_sched + interval_ns);
    let late = now - first_due;
    lemma_overdue(late, interval_ns as int, k);
}

proof fn lemma_overdue(late: int, interval: int, k: int)
    requires
        late >= 0,
        interval > 0,
        0 <= k < late / interval + 1,
    ensures
        0 <= k * interval <= late,
{
    vstd::arithmetic::div_mod::lemma_fundamental_div_mod(late, interval);
    assert(0 <= k * interval <= late) by (nonlinear_arith)
        requires
            late == interval * (late / interval) + late % interval,
            late % interval >= 0,
            0 <= k <= late / interval,
            interval > 0,
    ;
}

/// The lower bounds that a request given up on at `now` leaves.
pub fn overdue(mode: Mode, request: &Request, now: u64) -> (r: Vec<LowerBound>)
    ensures
        r@ == lower_bounds(mode, *request, now),
{
    let mut out: Vec<LowerBound> = Vec::new();
    match mode {
        Mode::Whole { ttft_ns, .. } => {
            if now >= request.sched_ns.saturating_add(ttft_ns) {
                out.push(
                    LowerBound {
                        metric: Metric::RequestLatency,
                        value_ns: now - request.sched_ns,
                        count: 1,
                    },
                );
            }
        },
        Mode::Stream { ttft_ns, interval_ns } => {
            if request.markers == 0 {
                if now >= request.sched_ns.saturating_add(ttft_ns) {
                    let elapsed: u64 = now - request.sched_ns;
                    out.push(LowerBound { metric: Metric::Ttft, value_ns: elapsed, count: 1 });
                    if !request.fresh {
                        out.push(
                            LowerBound { metric: Metric::TtftReused, value_ns: elapsed, count: 1 },
                        );
                    }
                }
            } else {
                let remaining: u64 = request.chunks.saturating_sub(request.markers) as u64;
                let first_due: u64 = request.last_marker_sched.saturating_add(interval_ns);
                if remaining > 0 && now >= first_due {
                    let late: u64 = now - first_due;
                    if interval_ns == 0 {
                        // All remaining chunks were due at once.
                        out.push(
                            LowerBound {
                                metric: Metric::ChunkLatency,
                                value_ns: late,
                                count: remaining,
                            },
                        );
                    } else {
                        let periods: u64 = late / interval_ns;
                        let n: u64 = if periods >= remaining {
                            remaining
                        } else {
                            periods + 1
                        };
                        let ghost wanted = lower_bounds(mode, *request, now);
                        let mut k: u64 = 0;
                        assert(wanted.take(0) =~= Seq::empty());
                        while k < n
                            invariant
                                k <= n,
                                n <= late / interval_ns + 1,
                                n == wanted.len(),
                                interval_ns > 0,
                                late == now - first_due,
                                wanted == Seq::new(
                                    n as nat,
                                    |j: int|
                                        LowerBound {
                                            metric: Metric::ChunkLatency,
                                            value_ns: (late - j * interval_ns) as u64,
                                            count: 1,
                                        },
                                ),
                                out@ == wanted.take(k as int),
                            decreases n - k,
                        {
                            proof {
                                lemma_overdue(late as int, interval_ns as int, k as int);
                            }
                            out.push(
                                LowerBound {
                                    metric: Metric::ChunkLatency,
                                    value_ns: late - k * interval_ns,
                                    count: 1,
                                },
                            );
                            k += 1;
                            assert(out@ =~= wanted.take(k as int));
                        }
                        assert(wanted.take(n as int) =~= wanted);
                    }
                }
            }
        },
    }
    assert(out@ =~= lower_bounds(mode, *request, now));
    out
}

/// Samples of all bounds together.
pub fn count_of(bounds: &[LowerBound]) -> (r: u64)
    requires
        bound_count(bounds@) <= u64::MAX,
    ensures
        r == bound_count(bounds@),
{
    let mut total: u64 = 0;
    let mut k: usize = 0;
    assert(bounds@.take(0) =~= Seq::empty());
    while k < bounds.len()
        invariant
            k <= bounds@.len(),
            total == bound_count(bounds@.take(k as int)),
            bound_count(bounds@) <= u64::MAX,
        decreases bounds@.len() - k,
    {
        proof {
            assert(bounds@.take(k + 1).drop_last() =~= bounds@.take(k as int));
            lemma_count_prefix(bounds@, k + 1);
        }
        total += bounds[k].count;
        k += 1;
    }
    assert(bounds@.take(k as int) =~= bounds@);
    total
}

/// Lower bounds by interval and metric, kept apart from the recorder so that
/// the samples of requests open at the end can still join the last interval
/// after the recorder has moved past it.
#[derive(Debug)]
pub struct Censored {
    /// Bounds of the histograms.
    pub bounds: Bounds,
    /// Samples by interval and metric.
    pub samples: Vec<(u64, Metric, Latencies)>,
    /// Samples above the range of the histograms by interval.
    pub saturated: Vec<(u64, u64)>,
    /// Samples in all.
    pub recorded: u64,
}

/// Samples of a metric in an interval.
pub open spec fn samples_of(
    samples: Seq<(u64, Metric, Latencies)>,
    index: u64,
    metric: Metric,
) -> Multiset<u64>
    decreases samples.len(),
{
    if samples.len() == 0 {
        Multiset::empty()
    } else {
        let rest = samples_of(samples.drop_last(), index, metric);
        let last = samples.last();
        if last.0 == index && last.1 == metric {
            rest.add(histogram::histogram_samples(last.2))
        } else {
            rest
        }
    }
}

/// Samples above the range in an interval.
pub open spec fn saturated_of(saturated: Seq<(u64, u64)>, index: u64) -> int
    decreases saturated.len(),
{
    if saturated.len() == 0 {
        0
    } else {
        saturated_of(saturated.drop_last(), index) + if saturated.last().0 == index {
            saturated.last().1 as int
        } else {
            0
        }
    }
}

proof fn lemma_samples_update(
    samples: Seq<(u64, Metric, Latencies)>,
    at: int,
    new: Latencies,
    more: Multiset<u64>,
    index: u64,
    metric: Metric,
)
    requires
        0 <= at < samples.len(),
        histogram::histogram_samples(new) == histogram::histogram_samples(samples[at].2).add(more),
    ensures
        samples_of(samples.update(at, (samples[at].0, samples[at].1, new)), index, metric)
            == if samples[at].0 == index && samples[at].1 == metric {
            samples_of(samples, index, metric).add(more)
        } else {
            samples_of(samples, index, metric)
        },
        samples[at].0 == index && samples[at].1 == metric ==> histogram::histogram_samples(
            samples[at].2,
        ).len() <= samples_of(samples, index, metric).len(),
    decreases samples.len(),
{
    broadcast use vstd::multiset::group_multiset_axioms;

    let updated = samples.update(at, (samples[at].0, samples[at].1, new));
    let rest = samples.drop_last();
    if at == samples.len() - 1 {
        assert(updated.drop_last() =~= rest);
    } else {
        assert(updated.drop_last() =~= rest.update(at, (rest[at].0, rest[at].1, new)));
        lemma_samples_update(rest, at, new, more, index, metric);
    }
    assert(samples_of(updated, index, metric) =~= if samples[at].0 == index && samples[at].1
        == metric {
        samples_of(samples, index, metric).add(more)
    } else {
        samples_of(samples, index, metric)
    });
}

proof fn lemma_part_of_samples(
    samples: Seq<(u64, Metric, Latencies)>,
    at: int,
)
    requires
        0 <= at < samples.len(),
    ensures
        histogram::histogram_samples(samples[at].2).len() <= samples_of(
            samples,
            samples[at].0,
            samples[at].1,
        ).len(),
    decreases samples.len(),
{
    broadcast use vstd::multiset::group_multiset_axioms;

    if at < samples.len() - 1 {
        lemma_part_of_samples(samples.drop_last(), at);
    }
}

proof fn lemma_saturated_update(saturated: Seq<(u64, u64)>, at: int, more: u64, index: u64)
    requires
        0 <= at < saturated.len(),
        saturated[at].1 + more <= u64::MAX,
    ensures
        saturated_of(
            saturated.update(at, (saturated[at].0, (saturated[at].1 + more) as u64)),
            index,
        ) == saturated_of(saturated, index) + if saturated[at].0 == index {
            more as int
        } else {
            0
        },
    decreases saturated.len(),
{
    let updated = saturated.update(at, (saturated[at].0, (saturated[at].1 + more) as u64));
    let rest = saturated.drop_last();
    if at == saturated.len() - 1 {
        assert(updated.drop_last() =~= rest);
    } else {
        assert(updated.drop_last() =~= rest.update(
            at,
            (rest[at].0, (rest[at].1 + more) as u64),
        ));
        lemma_saturated_update(rest, at, more, index);
    }
}

proof fn lemma_part_of_saturated(saturated: Seq<(u64, u64)>, at: int)
    requires
        0 <= at < saturated.len(),
    ensures
        saturated[at].1 <= saturated_of(saturated, saturated[at].0),
    decreases saturated.len(),
{
    if at < saturated.len() - 1 {
        lemma_part_of_saturated(saturated.drop_last(), at);
        lemma_saturated_nonnegative(saturated.drop_last(), saturated[at].0);
    } else {
        lemma_saturated_nonnegative(saturated.drop_last(), saturated[at].0);
    }
}

proof fn lemma_saturated_nonnegative(saturated: Seq<(u64, u64)>, index: u64)
    ensures
        saturated_of(saturated, index) >= 0,
    decreases saturated.len(),
{
    if saturated.len() > 0 {
        lemma_saturated_nonnegative(saturated.drop_last(), index);
    }
}

impl Censored {
    /// The histograms have the bounds, and no interval has more samples than
    /// were recorded.
    pub open spec fn wf(self) -> bool {
        &&& self.bounds.valid()
        &&& forall|i: int|
            0 <= i < self.samples@.len() ==> histogram::histogram_bounds(
                (#[trigger] self.samples@[i]).2,
            ) == self.bounds.tuple()
        &&& forall|i: u64, m: Metric| #[trigger]
            samples_of(self.samples@, i, m).len() <= self.recorded
        &&& forall|i: u64| #[trigger] saturated_of(self.saturated@, i) <= self.recorded
    }

    /// `next` is this with `bound` in interval `index`.
    pub open spec fn adds(self, index: u64, bound: LowerBound, next: Censored) -> bool {
        &&& next.bounds == self.bounds
        &&& next.recorded == self.recorded + bound.count
        &&& forall|i: u64, m: Metric| #[trigger]
            samples_of(next.samples@, i, m) == if i == index && m == bound.metric {
                samples_of(self.samples@, i, m).add(
                    histogram::copies(
                        histogram::histogram_bucket(self.bounds.tuple(), bound.value_ns),
                        bound.count as nat,
                    ),
                )
            } else {
                samples_of(self.samples@, i, m)
            }
        &&& forall|i: u64| #[trigger]
            saturated_of(next.saturated@, i) == saturated_of(self.saturated@, i) + if i == index
                && bound.value_ns > self.bounds.high {
                bound.count as int
            } else {
                0
            }
    }

    /// `next` is this with all of `bounds` in interval `index`.
    pub open spec fn adds_all(self, index: u64, bounds: Seq<LowerBound>, next: Censored) -> bool {
        &&& next.bounds == self.bounds
        &&& next.recorded == self.recorded + bound_count(bounds)
        &&& forall|i: u64, m: Metric| #[trigger]
            samples_of(next.samples@, i, m) == if i == index {
                samples_of(self.samples@, i, m).add(
                    contributed(bounds, m, self.bounds.tuple()),
                )
            } else {
                samples_of(self.samples@, i, m)
            }
        &&& forall|i: u64| #[trigger]
            saturated_of(next.saturated@, i) == saturated_of(self.saturated@, i) + if i == index {
                above(bounds, self.bounds.high)
            } else {
                0
            }
    }

    /// No bounds yet.
    pub fn new(bounds: Bounds) -> (r: Self)
        requires
            bounds.valid(),
        ensures
            r.wf(),
            r.bounds == bounds,
            r.samples@.len() == 0,
            r.saturated@.len() == 0,
            r.recorded == 0,
    {
        broadcast use vstd::multiset::group_multiset_axioms;

        Censored { bounds, samples: Vec::new(), saturated: Vec::new(), recorded: 0 }
    }

    fn slot(&mut self, index: u64, metric: Metric) -> (r: usize)
        requires
            old(self).wf(),
        ensures
            final(self).wf(),
            final(self).bounds == old(self).bounds,
            final(self).saturated@ == old(self).saturated@,
            final(self).recorded == old(self).recorded,
            r < final(self).samples@.len(),
            final(self).samples@[r as int].0 == index,
            final(self).samples@[r as int].1 == metric,
            forall|i: u64, m: Metric| #[trigger]
                samples_of(final(self).samples@, i, m) == samples_of(old(self).samples@, i, m),
    {
        let mut i: usize = 0;
        while i < self.samples.len()
            invariant
                self.wf(),
                *self == *old(self),
                i <= self.samples@.len(),
            decreases self.samples@.len() - i,
        {
            if self.samples[i].0 == index && self.samples[i].1 == metric {
                return i;
            }
            i += 1;
        }
        let ghost before = self.samples@;
        self.samples.push((index, metric, new_histogram(self.bounds)));
        proof {
            broadcast use vstd::multiset::group_multiset_axioms;

            assert(self.samples@.drop_last() =~= before);
            assert forall|i: u64, m: Metric| #[trigger]
                samples_of(self.samples@, i, m) == samples_of(before, i, m) by {
                assert(samples_of(before, i, m).add(Multiset::empty()) =~= samples_of(before, i, m));
            }
        }
        self.samples.len() - 1
    }

    fn saturate(&mut self, index: u64, count: u64)
        requires
            saturated_of(old(self).saturated@, index) + count <= u64::MAX,
        ensures
            final(self).bounds == old(self).bounds,
            final(self).samples@ == old(self).samples@,
            final(self).recorded == old(self).recorded,
            forall|i: u64| #[trigger]
                saturated_of(final(self).saturated@, i) == saturated_of(old(self).saturated@, i)
                    + if i == index {
                    count as int
                } else {
                    0
                },
    {
        let ghost before = self.saturated@;
        let mut i: usize = 0;
        while i < self.saturated.len()
            invariant
                *self == *old(self),
                before == self.saturated@,
                i <= self.saturated@.len(),
                saturated_of(before, index) + count <= u64::MAX,
            decreases self.saturated@.len() - i,
        {
            if self.saturated[i].0 == index {
                proof {
                    lemma_part_of_saturated(before, i as int);
                }
                let n: u64 = self.saturated[i].1 + count;
                self.saturated.set(i, (index, n));
                proof {
                    assert forall|k: u64| #[trigger]
                        saturated_of(self.saturated@, k) == saturated_of(before, k) + if k
                            == index {
                            count as int
                        } else {
                            0
                        } by {
                        lemma_saturated_update(before, i as int, count, k);
                    }
                }
                return ;
            }
            i += 1;
        }
        self.saturated.push((index, count));
        proof {
            assert(self.saturated@.drop_last() =~= before);
        }
    }

    /// Records `count` samples of `value_ns` for interval `index`.
    pub fn record(&mut self, index: u64, metric: Metric, value_ns: u64, count: u64)
        requires
            old(self).wf(),
            old(self).recorded + count <= u64::MAX,
        ensures
            final(self).wf(),
            old(self).adds(index, LowerBound { metric, value_ns, count }, *final(self)),
    {
        let at: usize = self.slot(index, metric);
        let ghost before = self.samples@;
        let ghost more = histogram::copies(
            histogram::histogram_bucket(self.bounds.tuple(), value_ns),
            count as nat,
        );
        proof {
            assert(samples_of(before, index, metric) == samples_of(old(self).samples@, index, metric));
            lemma_part_of_samples(before, at as int);
        }
        let entry = &mut self.samples[at];
        entry.2.record_n(value_ns, count);
        proof {
            let new = self.samples@[at as int].2;
            assert(self.samples@ =~= before.update(at as int, (index, metric, new)));
            assert forall|i: u64, m: Metric| #[trigger]
                samples_of(self.samples@, i, m) == if i == index && m == metric {
                    samples_of(old(self).samples@, i, m).add(more)
                } else {
                    samples_of(old(self).samples@, i, m)
                } by {
                assert(samples_of(before, i, m) == samples_of(old(self).samples@, i, m));
                lemma_samples_update(before, at as int, new, more, i, m);
            }
        }
        assert(saturated_of(self.saturated@, index) <= old(self).recorded);
        if value_ns > self.bounds.high {
            self.saturate(index, count);
        }
        self.recorded += count;
        proof {
            broadcast use vstd::multiset::group_multiset_axioms;

            histogram::lemma_copies(
                histogram::histogram_bucket(self.bounds.tuple(), value_ns),
                count as nat,
            );
            assert forall|i: u64, m: Metric| #[trigger]
                samples_of(self.samples@, i, m).len() <= self.recorded by {
                assert(samples_of(old(self).samples@, i, m).len() <= old(self).recorded);
            }
            assert forall|i: u64| #[trigger]
                saturated_of(self.saturated@, i) <= self.recorded by {
                assert(saturated_of(old(self).saturated@, i) <= old(self).recorded);
            }
        }
    }

    /// Records several lower bounds for interval `index`.
    pub fn record_all(&mut self, index: u64, bounds: &[LowerBound])
        requires
            old(self).wf(),
            old(self).recorded + bound_count(bounds@) <= u64::MAX,
        ensures
            final(self).wf(),
            old(self).adds_all(index, bounds@, *final(self)),
    {
        let mut k: usize = 0;
        proof {
            broadcast use vstd::multiset::group_multiset_axioms;

            assert(bounds@.take(0) =~= Seq::empty());
            assert(self.adds_all(index, bounds@.take(0), *self)) by {
                assert forall|i: u64, m: Metric| #[trigger]
                    samples_of(self.samples@, i, m) == if i == index {
                        samples_of(self.samples@, i, m).add(
                            contributed(bounds@.take(0), m, self.bounds.tuple()),
                        )
                    } else {
                        samples_of(self.samples@, i, m)
                    } by {
                    assert(samples_of(self.samples@, i, m).add(Multiset::empty()) =~= samples_of(
                        self.samples@,
                        i,
                        m,
                    ));
                }
            }
        }
        while k < bounds.len()
            invariant
                k <= bounds@.len(),
                self.wf(),
                old(self).adds_all(index, bounds@.take(k as int), *self),
                old(self).recorded + bound_count(bounds@) <= u64::MAX,
            decreases bounds@.len() - k,
        {
            let bound = bounds[k];
            let ghost mid = *self;
            proof {
                assert(bounds@.take(k + 1).drop_last() =~= bounds@.take(k as int));
                lemma_count_prefix(bounds@, k + 1);
            }
            self.record(index, bound.metric, bound.value_ns, bound.count);
            proof {
                broadcast use vstd::multiset::group_multiset_axioms;

                let next = bounds@.take(k + 1);
                let tuple = old(self).bounds.tuple();
                assert forall|i: u64, m: Metric| #[trigger]
                    samples_of(self.samples@, i, m) == if i == index {
                        samples_of(old(self).samples@, i, m).add(contributed(next, m, tuple))
                    } else {
                        samples_of(old(self).samples@, i, m)
                    } by {
                    assert(samples_of(mid.samples@, i, m) == if i == index {
                        samples_of(old(self).samples@, i, m).add(
                            contributed(bounds@.take(k as int), m, tuple),
                        )
                    } else {
                        samples_of(old(self).samples@, i, m)
                    });
                    assert(samples_of(self.samples@, i, m) =~= if i == index {
                        samples_of(old(self).samples@, i, m).add(contributed(next, m, tuple))
                    } else {
                        samples_of(old(self).samples@, i, m)
                    });
                }
                assert forall|i: u64| #[trigger]
                    saturated_of(self.saturated@, i) == saturated_of(old(self).saturated@, i) + if i
                        == index {
                        above(next, old(self).bounds.high)
                    } else {
                        0
                    } by {
                    assert(saturated_of(mid.saturated@, i) == saturated_of(old(self).saturated@, i)
                        + if i == index {
                        above(bounds@.take(k as int), old(self).bounds.high)
                    } else {
                        0
                    });
                }
            }
            k += 1;
        }
        assert(bounds@.take(k as int) =~= bounds@);
    }

    /// The samples and the counts above the range to add to the intervals of
    /// one shard, which are numbered from 0 to `last`: samples of an index
    /// past the last interval join the last one. Nothing without any
    /// interval.
    pub fn settle(self, last: Option<u64>) -> (r: (Vec<(u64, Metric, Latencies)>, Vec<(u64, u64)>))
        ensures
            last is None ==> r.0@.len() == 0 && r.1@.len() == 0,
            last matches Some(n) ==> {
                &&& r.0@.len() == self.samples@.len()
                &&& r.1@.len() == self.saturated@.len()
                &&& forall|i: int|
                    0 <= i < r.0@.len() ==> #[trigger] r.0@[i] == (
                        time::smaller(self.samples@[i].0 as int, n as int) as u64,
                        self.samples@[i].1,
                        self.samples@[i].2,
                    )
                &&& forall|i: int|
                    0 <= i < r.1@.len() ==> #[trigger] r.1@[i] == (
                        time::smaller(self.saturated@[i].0 as int, n as int) as u64,
                        self.saturated@[i].1,
                    )
            },
    {
        let mut samples = self.samples;
        let mut saturated = self.saturated;
        let n: u64 = match last {
            None => {
                return (Vec::new(), Vec::new());
            },
            Some(n) => n,
        };
        let mut i: usize = 0;
        while i < samples.len()
            invariant
                i <= samples@.len(),
                samples@.len() == self.samples@.len(),
                forall|k: int|
                    0 <= k < i ==> #[trigger] samples@[k] == (
                        time::smaller(self.samples@[k].0 as int, n as int) as u64,
                        self.samples@[k].1,
                        self.samples@[k].2,
                    ),
                forall|k: int| i <= k < samples@.len() ==> #[trigger] samples@[k] == self.samples@[k],
            decreases samples@.len() - i,
        {
            let entry = &mut samples[i];
            entry.0 = earlier(entry.0, n);
            i += 1;
        }
        let mut j: usize = 0;
        while j < saturated.len()
            invariant
                j <= saturated@.len(),
                saturated@.len() == self.saturated@.len(),
                forall|k: int|
                    0 <= k < j ==> #[trigger] saturated@[k] == (
                        time::smaller(self.saturated@[k].0 as int, n as int) as u64,
                        self.saturated@[k].1,
                    ),
                forall|k: int|
                    j <= k < saturated@.len() ==> #[trigger] saturated@[k] == self.saturated@[k],
            decreases saturated@.len() - j,
        {
            let entry = &mut saturated[j];
            entry.0 = earlier(entry.0, n);
            j += 1;
        }
        (samples, saturated)
    }
}

/// A whole response given up on leaves one lower bound of its request latency,
/// the time since its scheduled start, once the delay that was asked of the
/// mock has passed since then; before that nothing was due and nothing is
/// left.
pub proof fn law_an_overdue_response_leaves_the_time_since_its_start(
    request: Request,
    ttft_ns: u64,
    marker: bool,
    now: u64,
)
    requires
        request.sched_ns + ttft_ns <= u64::MAX,
    ensures
        ({
            let left = lower_bounds(Mode::Whole { ttft_ns, marker }, request, now);
            let due = request.sched_ns + ttft_ns <= now;
            &&& left.len() == if due {
                1nat
            } else {
                0
            }
            &&& due ==> left[0].metric == Metric::RequestLatency && left[0].count == 1
                && left[0].value_ns == now - request.sched_ns
        }),
{
}

/// A stream given up on before its first chunk leaves a lower bound of the
/// time to that chunk, the time since its scheduled start, once the chunk was
/// due; on a pooled connection the same bound stands under both metrics. It
/// leaves nothing else, and nothing before.
pub proof fn law_an_overdue_first_chunk_leaves_the_time_since_its_start(
    request: Request,
    ttft_ns: u64,
    interval_ns: u64,
    now: u64,
    k: int,
)
    requires
        request.markers == 0,
        request.sched_ns + ttft_ns <= u64::MAX,
        0 <= k < lower_bounds(Mode::Stream { ttft_ns, interval_ns }, request, now).len(),
    ensures
        ({
            let left = lower_bounds(Mode::Stream { ttft_ns, interval_ns }, request, now);
            &&& request.sched_ns + ttft_ns <= now
            &&& left.len() == if request.fresh {
                1nat
            } else {
                2
            }
            &&& left[k].metric == if k == 0 {
                Metric::Ttft
            } else {
                Metric::TtftReused
            }
            &&& left[k].value_ns == now - request.sched_ns
            &&& left[k].count == 1
        }),
{
}

/// Once the first chunk of a stream is due, giving up on it leaves a bound.
pub proof fn law_no_overdue_first_chunk_is_dropped(
    request: Request,
    ttft_ns: u64,
    interval_ns: u64,
    now: u64,
)
    requires
        request.markers == 0,
        request.sched_ns + ttft_ns <= now,
    ensures
        lower_bounds(Mode::Stream { ttft_ns, interval_ns }, request, now).len() >= 1,
{
}

/// Of the chunks that a stream in progress is missing, exactly those that
/// were due leave a lower bound, of the chunk latency, each the time since
/// its own planned time: one interval after the other from the last chunk
/// that arrived. No chunk is dropped because it never came.
pub proof fn law_every_overdue_chunk_leaves_its_own_bound(
    request: Request,
    ttft_ns: u64,
    interval_ns: u64,
    now: u64,
    k: int,
)
    requires
        request.markers > 0,
        interval_ns > 0,
        request.last_marker_sched + interval_ns <= u64::MAX,
        0 <= k < request.chunks - request.markers,
    ensures
        ({
            let left = lower_bounds(Mode::Stream { ttft_ns, interval_ns }, request, now);
            let due = request.last_marker_sched + (k + 1) * interval_ns;
            &&& k < left.len() <==> due <= now
            &&& k < left.len() ==> left[k].metric == Metric::ChunkLatency && left[k].count == 1
                && left[k].value_ns == now - due
            &&& left.len() <= request.chunks - request.markers
        }),
{
    let left = lower_bounds(Mode::Stream { ttft_ns, interval_ns }, request, now);
    let first = request.last_marker_sched + interval_ns;
    let late = now - first;
    let step = interval_ns as int;
    assert((k + 1) * interval_ns == k * interval_ns + interval_ns) by (nonlinear_arith);
    if late >= 0 {
        vstd::arithmetic::div_mod::lemma_fundamental_div_mod(late, step);
        if k < late / step + 1 {
            lemma_overdue(late, step, k);
        } else {
            assert(k * step > late) by (nonlinear_arith)
                requires
                    late == step * (late / step) + late % step,
                    (late % step) < step,
                    k >= late / step + 1,
                    step > 0,
            ;
        }
    } else {
        assert(k * interval_ns >= 0) by (nonlinear_arith)
            requires
                k >= 0,
                interval_ns > 0,
        ;
    }
}

/// Where the chunks of a stream are due all at once, all that are missing
/// leave the same bound, the time since they were due.
pub proof fn law_chunks_due_at_once_are_overdue_at_once(
    request: Request,
    ttft_ns: u64,
    now: u64,
)
    requires
        request.markers > 0,
    ensures
        ({
            let left = lower_bounds(Mode::Stream { ttft_ns, interval_ns: 0 }, request, now);
            let missing = request.chunks - request.markers;
            &&& left.len() > 0 <==> missing > 0 && request.last_marker_sched <= now
            &&& left.len() > 0 ==> left.len() == 1 && left[0].count == missing && left[0].value_ns
                == now - request.last_marker_sched && left[0].metric == Metric::ChunkLatency
        }),
{
}

/// One more bound adds its samples to its own metric and to no other, as many
/// as it counts; those above the range of the histograms are counted apart.
pub proof fn law_a_bound_adds_to_its_own_metric(
    bounds: Seq<LowerBound>,
    more: LowerBound,
    metric: Metric,
    range: (u64, u64, u8),
)
    ensures
        more.metric != metric ==> contributed(bounds.push(more), metric, range) == contributed(
            bounds,
            metric,
            range,
        ),
        more.metric == metric ==> contributed(bounds.push(more), metric, range) == contributed(
            bounds,
            metric,
            range,
        ).add(
            histogram::copies(
                histogram::histogram_bucket(range, more.value_ns),
                more.count as nat,
            ),
        ),
        above(bounds.push(more), range.1) - above(bounds, range.1) == if more.value_ns > range.1 {
            more.count as int
        } else {
            0
        },
        bound_count(bounds.push(more)) == bound_count(bounds) + more.count,
        contributed(Seq::empty(), metric, range) == Multiset::<u64>::empty(),
        above(Seq::empty(), range.1) == 0,
        bound_count(Seq::empty()) == 0,
{
    assert(bounds.push(more).drop_last() =~= bounds);
}

} // verus!
