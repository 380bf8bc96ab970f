//! Load-generator evidence that the interval metrics have no place for.
//!
//! - **Deadline misses.** A send the event loop reaches only after its
//!   scheduled time has missed its spin window. Either the loop woke late
//!   (the timer fired late or the thread was not running) or handling other
//!   events ran past the deadline. The split tells which remedy an emit lag
//!   failure needs.
//! - **Fresh connections.** A request sent on a newly opened connection
//!   carries the TCP (and TLS) handshake in its TTFT or request latency, so
//!   their number and TTFT show how much of a tail is connection setup.
//! - **Request slip.** On a pooled connection, the time from the send to the
//!   moment the mock had read the whole request. TTFT includes it, while
//!   mock write lag does not, so a saturated mock inflates TTFT with every
//!   other check passing.
//!
//! Shards record per interval so that the warmup can be excluded like
//! everywhere else.

use crate::histogram;
use crate::histogram::{merge, new_histogram, record, Bounds, Latencies};
use crate::loadgen::schedule::SEC_NS;
use crate::time;
use crate::time::later;
use vstd::multiset::Multiset;
use vstd::prelude::*;

verus! {

/// What delayed a send past its deadline.
#[derive(Debug, Clone, Copy, PartialEq, Eq, Structural)]
pub enum Miss {
    /// The event loop returned from its wait after the deadline.
    LateWakeup,
    /// The loop was awake before the deadline but handling other events.
    BusyLoop,
}

/// Samples kept once there are any.
pub type Samples = Option<Latencies>;

/// The samples kept.
pub open spec fn kept(samples: Samples) -> Multiset<u64> {
    match samples {
        Some(h) => histogram::histogram_samples(h),
        None => Multiset::empty(),
    }
}

/// The samples are kept with these bounds, and only where there are any.
pub open spec fn bounded(samples: Samples, bounds: Bounds) -> bool {
    samples matches Some(h) ==> histogram::histogram_bounds(h) == bounds.tuple()
        && histogram::histogram_samples(h).len() > 0
}

/// Counts a sample.
fn keep(samples: &mut Samples, value_ns: u64, bounds: Bounds)
    requires
        bounds.valid(),
        bounded(*old(samples), bounds),
        kept(*old(samples)).len() < u64::MAX,
    ensures
        bounded(*final(samples), bounds),
        kept(*final(samples)) == kept(*old(samples)).insert(
            histogram::histogram_bucket(bounds.tuple(), value_ns),
        ),
{
    broadcast use vstd::multiset::group_multiset_axioms;

    if samples.is_none() {
        *samples = Some(new_histogram(bounds));
    }
    if let Some(h) = samples {
        record(h, value_ns);
    }
}

/// Adds the samples of `src` to those of `dst`.
fn add_samples(dst: &mut Samples, src: &Samples, bounds: Bounds)
    requires
        bounds.valid(),
        bounded(*old(dst), bounds),
        bounded(*src, bounds),
        kept(*old(dst)).add(kept(*src)).len() <= u64::MAX,
    ensures
        bounded(*final(dst), bounds),
        kept(*final(dst)) == kept(*old(dst)).add(kept(*src)),
        (*final(dst)) is Some <==> (*old(dst)) is Some || (*src) is Some,
{
    broadcast use vstd::multiset::group_multiset_axioms;

    let ghost before = kept(*dst);
    if let Some(h) = src {
        if dst.is_none() {
            *dst = Some(new_histogram(bounds));
        }
        if let Some(acc) = dst {
            merge(acc, h);
        }
        assert(kept(*dst) =~= before.add(kept(*src)));
    } else {
        assert(kept(*dst) =~= before.add(kept(*src)));
    }
}

/// The plain contents of an interval's diagnostics.
pub ghost struct Diag {
    /// Sends woken up for late.
    pub late_wakeups: int,
    /// Sends reached late by a busy loop.
    pub busy_loop_misses: int,
    /// Largest miss.
    pub max_miss_ns: int,
    /// Sends on newly opened connections.
    pub fresh_sends: int,
    /// Slips below zero.
    pub negative_slips: int,
    /// Slips of the requests on pooled connections.
    pub slips: Multiset<u64>,
    /// TTFTs of the requests on newly opened connections.
    pub fresh_ttfts: Multiset<u64>,
}

impl Diag {
    /// Nothing happened.
    pub open spec fn nothing() -> Diag {
        Diag {
            late_wakeups: 0,
            busy_loop_misses: 0,
            max_miss_ns: 0,
            fresh_sends: 0,
            negative_slips: 0,
            slips: Multiset::empty(),
            fresh_ttfts: Multiset::empty(),
        }
    }

    /// Both together.
    pub open spec fn plus(self, other: Diag) -> Diag {
        Diag {
            late_wakeups: self.late_wakeups + other.late_wakeups,
            busy_loop_misses: self.busy_loop_misses + other.busy_loop_misses,
            max_miss_ns: time::larger(self.max_miss_ns, other.max_miss_ns),
            fresh_sends: self.fresh_sends + other.fresh_sends,
            negative_slips: self.negative_slips + other.negative_slips,
            slips: self.slips.add(other.slips),
            fresh_ttfts: self.fresh_ttfts.add(other.fresh_ttfts),
        }
    }

    /// The counts can be told, with `spare` more of each.
    pub open spec fn fits(self, spare: int) -> bool {
        &&& self.late_wakeups + spare <= u64::MAX
        &&& self.busy_loop_misses + spare <= u64::MAX
        &&& self.fresh_sends + spare <= u64::MAX
        &&& self.negative_slips + spare <= u64::MAX
        &&& self.slips.len() + spare <= u64::MAX
        &&& self.fresh_ttfts.len() + spare <= u64::MAX
    }

    /// No count is below zero.
    pub open spec fn counts(self) -> bool {
        &&& self.late_wakeups >= 0
        &&& self.busy_loop_misses >= 0
        &&& self.max_miss_ns >= 0
        &&& self.fresh_sends >= 0
        &&& self.negative_slips >= 0
    }
}

proof fn lemma_plus(a: Diag, b: Diag, c: Diag)
    ensures
        a.plus(b).plus(c) == a.plus(b.plus(c)),
        a.plus(b) == b.plus(a),
        a.counts() ==> a.plus(Diag::nothing()) == a,
{
    broadcast use vstd::multiset::group_multiset_axioms;

    assert(a.slips.add(b.slips).add(c.slips) =~= a.slips.add(b.slips.add(c.slips)));
    assert(a.fresh_ttfts.add(b.fresh_ttfts).add(c.fresh_ttfts) =~= a.fresh_ttfts.add(
        b.fresh_ttfts.add(c.fresh_ttfts),
    ));
    assert(a.slips.add(b.slips) =~= b.slips.add(a.slips));
    assert(a.fresh_ttfts.add(b.fresh_ttfts) =~= b.fresh_ttfts.add(a.fresh_ttfts));
    assert(a.slips.add(Multiset::empty()) =~= a.slips);
    assert(a.fresh_ttfts.add(Multiset::empty()) =~= a.fresh_ttfts);
}

/// One interval's diagnostics of one shard, or of all shards once merged.
#[derive(Debug)]
pub struct IntervalDiagnostics {
    /// Sends the event loop woke up for only after their deadline.
    pub late_wakeups: u64,
    /// Sends whose deadline passed while the loop handled other events.
    pub busy_loop_misses: u64,
    /// Largest deadline miss.
    pub max_miss_ns: u64,
    /// Requests sent on a newly opened connection.
    pub fresh_sends: u64,
    /// Slips whose mock receipt preceded the send.
    pub negative_slips: u64,
    /// Slips of the requests on pooled connections.
    pub request_slip: Samples,
    /// TTFTs of the requests on newly opened connections.
    pub fresh_ttft: Samples,
}

impl View for IntervalDiagnostics {
    type V = Diag;

    open spec fn view(&self) -> Diag {
        Diag {
            late_wakeups: self.late_wakeups as int,
            busy_loop_misses: self.busy_loop_misses as int,
            max_miss_ns: self.max_miss_ns as int,
            fresh_sends: self.fresh_sends as int,
            negative_slips: self.negative_slips as int,
            slips: kept(self.request_slip),
            fresh_ttfts: kept(self.fresh_ttft),
        }
    }
}

impl IntervalDiagnostics {
    /// The samples are kept with these bounds, and only where there are any.
    pub open spec fn wf(self, bounds: Bounds) -> bool {
        bounded(self.request_slip, bounds) && bounded(self.fresh_ttft, bounds)
    }

    /// Nothing happened.
    pub fn new() -> (r: Self)
        ensures
            r@ == Diag::nothing(),
            r.request_slip is None,
            r.fresh_ttft is None,
    {
        IntervalDiagnostics {
            late_wakeups: 0,
            busy_loop_misses: 0,
            max_miss_ns: 0,
            fresh_sends: 0,
            negative_slips: 0,
            request_slip: None,
            fresh_ttft: None,
        }
    }

    /// Adds another interval's diagnostics.
    pub fn merge(&mut self, other: &IntervalDiagnostics, bounds: Bounds)
        requires
            bounds.valid(),
            old(self).wf(bounds),
            other.wf(bounds),
            old(self)@.plus(other@).fits(0),
        ensures
            final(self).wf(bounds),
            final(self)@ == old(self)@.plus(other@),
    {
        self.late_wakeups += other.late_wakeups;
        self.busy_loop_misses += other.busy_loop_misses;
        self.max_miss_ns = later(self.max_miss_ns, other.max_miss_ns);
        self.fresh_sends += other.fresh_sends;
        self.negative_slips += other.negative_slips;
        add_samples(&mut self.request_slip, &other.request_slip, bounds);
        add_samples(&mut self.fresh_ttft, &other.fresh_ttft, bounds);
    }
}

/// Per-interval diagnostics with the index of the interval.
#[derive(Debug)]
pub struct Intervals {
    /// Bounds of the histograms.
    pub bounds: Bounds,
    /// The intervals in which something happened, in no order.
    pub entries: Vec<(u64, IntervalDiagnostics)>,
}

/// What happened in the intervals from `warmup` on, all together.
pub open spec fn total(entries: Seq<(u64, IntervalDiagnostics)>, warmup: u64) -> Diag
    decreases entries.len(),
{
    if entries.len() == 0 {
        Diag::nothing()
    } else {
        let rest = total(entries.drop_last(), warmup);
        if entries.last().0 >= warmup {
            rest.plus(entries.last().1@)
        } else {
            rest
        }
    }
}

/// What happened in interval `index`, all together.
pub open spec fn total_at(entries: Seq<(u64, IntervalDiagnostics)>, index: u64) -> Diag
    decreases entries.len(),
{
    if entries.len() == 0 {
        Diag::nothing()
    } else {
        let rest = total_at(entries.drop_last(), index);
        if entries.last().0 == index {
            rest.plus(entries.last().1@)
        } else {
            rest
        }
    }
}

proof fn lemma_total_counts(entries: Seq<(u64, IntervalDiagnostics)>, warmup: u64)
    ensures
        total(entries, warmup).counts(),
        total_at(entries, warmup).counts(),
    decreases entries.len(),
{
    if entries.len() > 0 {
        lemma_total_counts(entries.drop_last(), warmup);
    }
}

/// Adding to one entry adds to the totals that it counts in.
proof fn lemma_update(
    entries: Seq<(u64, IntervalDiagnostics)>,
    at: int,
    new: IntervalDiagnostics,
    more: Diag,
    warmup: u64,
)
    requires
        0 <= at < entries.len(),
        new@ == entries[at].1@.plus(more),
        more.counts(),
    ensures
        total(entries.update(at, (entries[at].0, new)), warmup) == if entries[at].0 >= warmup {
            total(entries, warmup).plus(more)
        } else {
            total(entries, warmup)
        },
        total_at(entries.update(at, (entries[at].0, new)), warmup) == if entries[at].0 == warmup {
            total_at(entries, warmup).plus(more)
        } else {
            total_at(entries, warmup)
        },
    decreases entries.len(),
{
    let updated = entries.update(at, (entries[at].0, new));
    let rest = entries.drop_last();
    let last = entries.last().1@;
    if at == entries.len() - 1 {
        assert(updated.drop_last() =~= rest);
        lemma_plus(total(rest, warmup), last, more);
        lemma_plus(total_at(rest, warmup), last, more);
    } else {
        assert(updated.drop_last() =~= rest.update(at, (rest[at].0, new)));
        lemma_update(rest, at, new, more, warmup);
        lemma_plus(total(rest, warmup), more, last);
        lemma_plus(total(rest, warmup), last, more);
        lemma_plus(more, last, more);
        lemma_plus(total_at(rest, warmup), more, last);
        lemma_plus(total_at(rest, warmup), last, more);
    }
}

/// An entry is no larger than the total it counts in.
proof fn lemma_entry_fits(entries: Seq<(u64, IntervalDiagnostics)>, at: int, more: Diag)
    requires
        0 <= at < entries.len(),
        more.counts(),
        total_at(entries, entries[at].0).plus(more).fits(0),
    ensures
        entries[at].1@.plus(more).fits(0),
    decreases entries.len(),
{
    broadcast use vstd::multiset::group_multiset_axioms;

    let index = entries[at].0;
    let rest = entries.drop_last();
    lemma_total_counts(rest, index);
    lemma_total_counts(entries, index);
    if at < entries.len() - 1 {
        lemma_entry_fits(rest, at, more);
    }
}

impl Intervals {
    /// The histograms have the bounds.
    pub open spec fn wf(self) -> bool {
        &&& self.bounds.valid()
        &&& forall|i: int|
            0 <= i < self.entries@.len() ==> (#[trigger] self.entries@[i]).1.wf(self.bounds)
    }

    /// What happened in interval `index`.
    pub open spec fn at(self, index: u64) -> Diag {
        total_at(self.entries@, index)
    }

    /// What happened in the intervals from `warmup` on.
    pub open spec fn from(self, warmup: u64) -> Diag {
        total(self.entries@, warmup)
    }

    /// No interval yet.
    pub fn new(bounds: Bounds) -> (r: Self)
        requires
            bounds.valid(),
        ensures
            r.wf(),
            r.bounds == bounds,
            r.entries@.len() == 0,
    {
        Intervals { bounds, entries: Vec::new() }
    }

    /// Where interval `index` is; it is added if need be.
    fn slot(&mut self, index: u64) -> (r: usize)
        requires
            old(self).wf(),
        ensures
            final(self).wf(),
            final(self).bounds == old(self).bounds,
            r < final(self).entries@.len(),
            final(self).entries@[r as int].0 == index,
            forall|i: u64| #[trigger] final(self).at(i) == old(self).at(i),
            forall|w: u64| #[trigger] final(self).from(w) == old(self).from(w),
    {
        let mut i: usize = 0;
        while i < self.entries.len()
            invariant
                self.wf(),
                self.bounds == old(self).bounds,
                self.entries@ == old(self).entries@,
                i <= self.entries@.len(),
            decreases self.entries@.len() - i,
        {
            if self.entries[i].0 == index {
                return i;
            }
            i += 1;
        }
        let fresh = IntervalDiagnostics::new();
        let ghost before = self.entries@;
        self.entries.push((index, fresh));
        proof {
            assert(self.entries@.drop_last() =~= before);
            assert forall|k: u64| #[trigger] self.at(k) == old(self).at(k) by {
                lemma_total_counts(before, k);
                lemma_plus(total_at(before, k), Diag::nothing(), Diag::nothing());
            }
            assert forall|k: u64| #[trigger] self.from(k) == old(self).from(k) by {
                lemma_total_counts(before, k);
                lemma_plus(total(before, k), Diag::nothing(), Diag::nothing());
            }
        }
        self.entries.len() - 1
    }

    /// Adds what happened in interval `index`.
    fn add_to(&mut self, index: u64, more: &IntervalDiagnostics)
        requires
            old(self).wf(),
            more.wf(old(self).bounds),
            old(self).at(index).plus(more@).fits(0),
        ensures
            final(self).wf(),
            final(self).bounds == old(self).bounds,
            final(self).at(index) == old(self).at(index).plus(more@),
            forall|i: u64| i != index ==> #[trigger] final(self).at(i) == old(self).at(i),
            forall|w: u64| #[trigger]
                final(self).from(w) == if index >= w {
                    old(self).from(w).plus(more@)
                } else {
                    old(self).from(w)
                },
    {
        let at: usize = self.slot(index);
        let ghost mid = *self;
        let ghost before = self.entries@;
        let bounds = self.bounds;
        proof {
            assert(mid.at(index) == old(self).at(index));
            lemma_entry_fits(before, at as int, more@);
        }
        let entry = &mut self.entries[at];
        entry.1.merge(more, bounds);
        proof {
            let new = self.entries@[at as int].1;
            assert(self.entries@ =~= before.update(at as int, (before[at as int].0, new)));
            assert forall|k: u64| k != index implies #[trigger] self.at(k) == old(self).at(k) by {
                assert(mid.at(k) == old(self).at(k));
                lemma_update(before, at as int, new, more@, k);
            }
            lemma_update(before, at as int, new, more@, index);
            assert forall|w: u64| #[trigger]
                self.from(w) == if index >= w {
                    old(self).from(w).plus(more@)
                } else {
                    old(self).from(w)
                } by {
                assert(mid.from(w) == old(self).from(w));
                lemma_update(before, at as int, new, more@, w);
            }
        }
    }
}

/// A shard's diagnostics, recorded on the interval grid of its recorder.
#[derive(Debug)]
pub struct Recorder {
    /// Start of interval 0.
    pub origin_ns: u64,
    /// What was recorded.
    pub intervals: Intervals,
}

/// The interval that holds `t`, of those that start at `origin`; times
/// before it belong to the first.
pub open spec fn interval_index(origin: u64, t: u64) -> u64 {
    time::floored(t - origin) / SEC_NS
}

impl Recorder {
    /// The histograms have the bounds.
    pub open spec fn wf(self) -> bool {
        self.intervals.wf()
    }

    /// One more of anything can be counted.
    pub open spec fn has_room(self) -> bool {
        self.intervals.from(0).fits(1)
    }

    /// `next` is this recorder with `more` in the interval that holds `t`.
    pub open spec fn adds(self, t: u64, more: Diag, next: Recorder) -> bool {
        let index = interval_index(self.origin_ns, t);
        &&& next.origin_ns == self.origin_ns
        &&& next.intervals.bounds == self.intervals.bounds
        &&& next.intervals.at(index) == self.intervals.at(index).plus(more)
        &&& forall|i: u64|
            i != index ==> #[trigger] next.intervals.at(i) == self.intervals.at(i)
        &&& forall|w: u64| #[trigger]
            next.intervals.from(w) == if index >= w {
                self.intervals.from(w).plus(more)
            } else {
                self.intervals.from(w)
            }
    }

    /// A recorder whose interval 0 starts at `origin_ns`.
    pub fn new(origin_ns: u64, bounds: Bounds) -> (r: Self)
        requires
            bounds.valid(),
        ensures
            r.wf(),
            r.origin_ns == origin_ns,
            r.intervals.bounds == bounds,
            r.intervals.entries@.len() == 0,
    {
        Recorder { origin_ns, intervals: Intervals::new(bounds) }
    }

    fn index(&self, at_ns: u64) -> (r: u64)
        ensures
            r == interval_index(self.origin_ns, at_ns),
    {
        at_ns.saturating_sub(self.origin_ns) / SEC_NS
    }

    /// A send reached at `at_ns`, `miss_ns` after its deadline.
    pub fn deadline_missed(&mut self, at_ns: u64, miss_ns: u64, miss: Miss)
        requires
            old(self).wf(),
            old(self).has_room(),
        ensures
            final(self).wf(),
            old(self).adds(
                at_ns,
                Diag {
                    late_wakeups: if miss == Miss::LateWakeup {
                        1
                    } else {
                        0
                    },
                    busy_loop_misses: if miss == Miss::BusyLoop {
                        1
                    } else {
                        0
                    },
                    max_miss_ns: miss_ns as int,
                    ..Diag::nothing()
                },
                *final(self),
            ),
    {
        broadcast use vstd::multiset::group_multiset_axioms;

        let mut more = IntervalDiagnostics::new();
        match miss {
            Miss::LateWakeup => {
                more.late_wakeups = 1;
            },
            Miss::BusyLoop => {
                more.busy_loop_misses = 1;
            },
        }
        more.max_miss_ns = miss_ns;
        let index: u64 = self.index(at_ns);
        proof {
            lemma_at_within(self.intervals.entries@, index, more@);
        }
        self.intervals.add_to(index, &more);
    }

    /// A request went out on a newly opened connection.
    pub fn fresh_send(&mut self, at_ns: u64)
        requires
            old(self).wf(),
            old(self).has_room(),
        ensures
            final(self).wf(),
            old(self).adds(at_ns, Diag { fresh_sends: 1, ..Diag::nothing() }, *final(self)),
    {
        broadcast use vstd::multiset::group_multiset_axioms;

        let mut more = IntervalDiagnostics::new();
        more.fresh_sends = 1;
        let index: u64 = self.index(at_ns);
        proof {
            lemma_at_within(self.intervals.entries@, index, more@);
        }
        self.intervals.add_to(index, &more);
    }

    /// TTFT of a request sent on a newly opened connection.
    pub fn fresh_ttft(&mut self, at_ns: u64, ttft_ns: u64)
        requires
            old(self).wf(),
            old(self).has_room(),
        ensures
            final(self).wf(),
            old(self).adds(
                at_ns,
                Diag {
                    fresh_ttfts: Multiset::empty().insert(
                        histogram::histogram_bucket(old(self).intervals.bounds.tuple(), ttft_ns),
                    ),
                    ..Diag::nothing()
                },
                *final(self),
            ),
    {
        broadcast use vstd::multiset::group_multiset_axioms;

        let mut more = IntervalDiagnostics::new();
        keep(&mut more.fresh_ttft, ttft_ns, self.intervals.bounds);
        let index: u64 = self.index(at_ns);
        proof {
            lemma_at_within(self.intervals.entries@, index, more@);
        }
        self.intervals.add_to(index, &more);
    }

    /// Slip of a request sent at `sent_ns` on a pooled connection that the
    /// mock had read completely at `read_ns`.
    pub fn request_slip(&mut self, at_ns: u64, sent_ns: u64, read_ns: u64)
        requires
            old(self).wf(),
            old(self).has_room(),
        ensures
            final(self).wf(),
            old(self).adds(
                at_ns,
                if read_ns >= sent_ns {
                    Diag {
                        slips: Multiset::empty().insert(
                            histogram::histogram_bucket(
                                old(self).intervals.bounds.tuple(),
                                (read_ns - sent_ns) as u64,
                            ),
                        ),
                        ..Diag::nothing()
                    }
                } else {
                    Diag { negative_slips: 1, ..Diag::nothing() }
                },
                *final(self),
            ),
    {
        broadcast use vstd::multiset::group_multiset_axioms;

        let mut more = IntervalDiagnostics::new();
        if read_ns >= sent_ns {
            keep(&mut more.request_slip, read_ns - sent_ns, self.intervals.bounds);
        } else {
            more.negative_slips = 1;
        }
        let index: u64 = self.index(at_ns);
        proof {
            lemma_at_within(self.intervals.entries@, index, more@);
        }
        self.intervals.add_to(index, &more);
    }

    /// The recorded intervals.
    pub fn finish(self) -> (r: Intervals)
        ensures
            r == self.intervals,
    {
        self.intervals
    }
}

/// Adds one shard's intervals to the merged ones.
pub fn merge_into(merged: &mut Intervals, shard: &Intervals)
    requires
        old(merged).wf(),
        shard.wf(),
        old(merged).bounds == shard.bounds,
        old(merged).from(0).plus(shard.from(0)).fits(0),
    ensures
        final(merged).wf(),
        final(merged).bounds == old(merged).bounds,
        forall|i: u64| #[trigger] final(merged).at(i) == old(merged).at(i).plus(shard.at(i)),
        forall|w: u64| #[trigger] final(merged).from(w) == old(merged).from(w).plus(shard.from(w)),
{
    let mut k: usize = 0;
    proof {
        assert(shard.entries@.take(0) =~= Seq::empty());
        assert forall|i: u64| #[trigger] merged.at(i) == old(merged).at(i).plus(
            total_at(shard.entries@.take(0), i),
        ) by {
            lemma_total_counts(merged.entries@, i);
            lemma_plus(merged.at(i), Diag::nothing(), Diag::nothing());
        }
        assert forall|i: u64| #[trigger] merged.from(i) == old(merged).from(i).plus(
            total(shard.entries@.take(0), i),
        ) by {
            lemma_total_counts(merged.entries@, i);
            lemma_plus(merged.from(i), Diag::nothing(), Diag::nothing());
        }
    }
    while k < shard.entries.len()
        invariant
            k <= shard.entries@.len(),
            merged.wf(),
            shard.wf(),
            merged.bounds == old(merged).bounds,
            merged.bounds == shard.bounds,
            old(merged).from(0).plus(shard.from(0)).fits(0),
            forall|i: u64| #[trigger]
                merged.at(i) == old(merged).at(i).plus(
                    total_at(shard.entries@.take(k as int), i),
                ),
            forall|w: u64| #[trigger]
                merged.from(w) == old(merged).from(w).plus(
                    total(shard.entries@.take(k as int), w),
                ),
        decreases shard.entries@.len() - k,
    {
        let entry = &shard.entries[k];
        let ghost before = *merged;
        let ghost done = shard.entries@.take(k as int);
        let ghost next = shard.entries@.take(k + 1);
        let ghost more = entry.1@;
        proof {
            assert(next.drop_last() =~= done);
            assert(next.last() == *entry);
            lemma_total_prefix(shard.entries@, k + 1);
            lemma_plus(old(merged).from(0), total(done, 0), more);
            lemma_room(old(merged).from(0), total(next, 0), shard.from(0));
            assert(before.from(0) == old(merged).from(0).plus(total(done, 0)));
            lemma_at_within(before.entries@, entry.0, more);
        }
        merged.add_to(entry.0, &entry.1);
        proof {
            assert forall|i: u64| #[trigger] merged.at(i) == old(merged).at(i).plus(
                total_at(next, i),
            ) by {
                assert(before.at(i) == old(merged).at(i).plus(total_at(done, i)));
                lemma_plus(old(merged).at(i), total_at(done, i), more);
            }
            assert forall|w: u64| #[trigger] merged.from(w) == old(merged).from(w).plus(
                total(next, w),
            ) by {
                assert(before.from(w) == old(merged).from(w).plus(total(done, w)));
                lemma_plus(old(merged).from(w), total(done, w), more);
            }
        }
        k += 1;
    }
    assert(shard.entries@.take(k as int) =~= shard.entries@);
}

/// No count of `a` exceeds that of `b`.
spec fn within(a: Diag, b: Diag) -> bool {
    &&& a.late_wakeups <= b.late_wakeups
    &&& a.busy_loop_misses <= b.busy_loop_misses
    &&& a.fresh_sends <= b.fresh_sends
    &&& a.negative_slips <= b.negative_slips
    &&& a.slips.len() <= b.slips.len()
    &&& a.fresh_ttfts.len() <= b.fresh_ttfts.len()
}

proof fn lemma_total_prefix(entries: Seq<(u64, IntervalDiagnostics)>, n: int)
    requires
        0 <= n <= entries.len(),
    ensures
        within(total(entries.take(n), 0), total(entries, 0)),
    decreases entries.len(),
{
    broadcast use vstd::multiset::group_multiset_axioms;

    if n < entries.len() {
        lemma_total_prefix(entries.drop_last(), n);
        assert(entries.drop_last().take(n) =~= entries.take(n));
    } else {
        assert(entries.take(n) =~= entries);
    }
}

proof fn lemma_room(merged: Diag, next: Diag, all: Diag)
    requires
        within(next, all),
        merged.plus(all).fits(0),
    ensures
        merged.plus(next).fits(0),
{
    broadcast use vstd::multiset::group_multiset_axioms;

}

/// What happened in one interval fits where what happened in all does.
proof fn lemma_at_within(entries: Seq<(u64, IntervalDiagnostics)>, index: u64, more: Diag)
    requires
        more.counts(),
        total(entries, 0).plus(more).fits(0),
    ensures
        total_at(entries, index).plus(more).fits(0),
{
    broadcast use vstd::multiset::group_multiset_axioms;

    lemma_at_below(entries, index);
}

proof fn lemma_at_below(entries: Seq<(u64, IntervalDiagnostics)>, index: u64)
    ensures
        within(total_at(entries, index), total(entries, 0)),
    decreases entries.len(),
{
    broadcast use vstd::multiset::group_multiset_axioms;

    if entries.len() > 0 {
        lemma_at_below(entries.drop_last(), index);
    }
}

/// The sum, unless it reaches the largest count.
fn more(sum: u64, n: u64) -> (r: Option<u64>)
    ensures
        match r {
            Some(v) => v == sum + n && v < u64::MAX,
            None => sum + n >= u64::MAX,
        },
{
    match sum.checked_add(n) {
        Some(v) => if v < u64::MAX {
            Some(v)
        } else {
            None
        },
        None => None,
    }
}

/// The number of samples, or the largest count where there are as many.
fn sample_total(samples: &Samples) -> (r: u64)
    ensures
        kept(*samples).len() < u64::MAX ==> r == kept(*samples).len(),
        r < u64::MAX ==> r == kept(*samples).len(),
{
    broadcast use vstd::multiset::group_multiset_axioms;

    match samples {
        Some(h) => h.count(),
        None => 0,
    }
}

/// The counts of all intervals.
struct Counts {
    late_wakeups: u64,
    busy_loop_misses: u64,
    fresh_sends: u64,
    negative_slips: u64,
    slips: u64,
    fresh_ttfts: u64,
}

impl Counts {
    spec fn are_of(self, d: Diag) -> bool {
        &&& self.late_wakeups == d.late_wakeups
        &&& self.busy_loop_misses == d.busy_loop_misses
        &&& self.fresh_sends == d.fresh_sends
        &&& self.negative_slips == d.negative_slips
        &&& self.slips == d.slips.len()
        &&& self.fresh_ttfts == d.fresh_ttfts.len()
    }

    /// Both together, unless a count reaches the largest one.
    fn plus(&self, other: &Counts) -> (r: Option<Counts>)
        ensures
            match r {
                Some(c) => {
                    &&& c.late_wakeups == self.late_wakeups + other.late_wakeups < u64::MAX
                    &&& c.busy_loop_misses == self.busy_loop_misses + other.busy_loop_misses
                        < u64::MAX
                    &&& c.fresh_sends == self.fresh_sends + other.fresh_sends < u64::MAX
                    &&& c.negative_slips == self.negative_slips + other.negative_slips < u64::MAX
                    &&& c.slips == self.slips + other.slips < u64::MAX
                    &&& c.fresh_ttfts == self.fresh_ttfts + other.fresh_ttfts < u64::MAX
                },
                None => {
                    ||| self.late_wakeups + other.late_wakeups >= u64::MAX
                    ||| self.busy_loop_misses + other.busy_loop_misses >= u64::MAX
                    ||| self.fresh_sends + other.fresh_sends >= u64::MAX
                    ||| self.negative_slips + other.negative_slips >= u64::MAX
                    ||| self.slips + other.slips >= u64::MAX
                    ||| self.fresh_ttfts + other.fresh_ttfts >= u64::MAX
                },
            },
    {
        match (
            more(self.late_wakeups, other.late_wakeups),
            more(self.busy_loop_misses, other.busy_loop_misses),
            more(self.fresh_sends, other.fresh_sends),
            more(self.negative_slips, other.negative_slips),
            more(self.slips, other.slips),
            more(self.fresh_ttfts, other.fresh_ttfts),
        ) {
            (
                Some(late_wakeups),
                Some(busy_loop_misses),
                Some(fresh_sends),
                Some(negative_slips),
                Some(slips),
                Some(fresh_ttfts),
            ) => Some(
                Counts {
                    late_wakeups,
                    busy_loop_misses,
                    fresh_sends,
                    negative_slips,
                    slips,
                    fresh_ttfts,
                },
            ),
            _ => None,
        }
    }
}

impl Intervals {
    /// The counts of all intervals, unless one of them reaches the largest.
    fn counts(&self) -> (r: Option<Counts>)
        ensures
            match r {
                Some(c) => c.are_of(self.from(0)) && self.from(0).fits(1),
                None => !self.from(0).fits(1),
            },
    {
        broadcast use vstd::multiset::group_multiset_axioms;

        let mut sum = Counts {
            late_wakeups: 0,
            busy_loop_misses: 0,
            fresh_sends: 0,
            negative_slips: 0,
            slips: 0,
            fresh_ttfts: 0,
        };
        let mut k: usize = 0;
        assert(self.entries@.take(0) =~= Seq::empty());
        while k < self.entries.len()
            invariant
                k <= self.entries@.len(),
                sum.are_of(total(self.entries@.take(k as int), 0)),
                total(self.entries@.take(k as int), 0).fits(1),
            decreases self.entries@.len() - k,
        {
            broadcast use vstd::multiset::group_multiset_axioms;

            let d = &self.entries[k].1;
            let one = Counts {
                late_wakeups: d.late_wakeups,
                busy_loop_misses: d.busy_loop_misses,
                fresh_sends: d.fresh_sends,
                negative_slips: d.negative_slips,
                slips: sample_total(&d.request_slip),
                fresh_ttfts: sample_total(&d.fresh_ttft),
            };
            proof {
                let next = self.entries@.take(k + 1);
                assert(next.drop_last() =~= self.entries@.take(k as int));
                assert(next.last() == self.entries@[k as int]);
                lemma_total_prefix(self.entries@, k + 1);
            }
            match sum.plus(&one) {
                Some(next) => {
                    sum = next;
                },
                None => {
                    return None;
                },
            }
            k += 1;
        }
        assert(self.entries@.take(k as int) =~= self.entries@);
        Some(sum)
    }

    /// Whether the diagnostics of both can be merged, with one more of every
    /// count to spare.
    pub fn has_room_for(&self, other: &Intervals) -> (r: bool)
        ensures
            r == (self.bounds == other.bounds && self.from(0).plus(other.from(0)).fits(1)),
    {
        broadcast use vstd::multiset::group_multiset_axioms;

        proof {
            lemma_total_counts(self.entries@, 0);
            lemma_total_counts(other.entries@, 0);
        }
        if self.bounds.low != other.bounds.low || self.bounds.high != other.bounds.high
            || self.bounds.sigfig != other.bounds.sigfig {
            return false;
        }
        match (self.counts(), other.counts()) {
            (Some(a), Some(b)) => a.plus(&b).is_some(),
            _ => false,
        }
    }
}

/// Post-warmup diagnostics of a run.
#[derive(Debug)]
pub struct Diagnostics {
    /// Sends the event loop woke up for only after their deadline.
    pub late_wakeups: u64,
    /// Sends whose deadline passed while the loop handled other events.
    pub busy_loop_misses: u64,
    /// Largest deadline miss, nanoseconds.
    pub max_deadline_miss_ns: u64,
    /// Requests sent on a newly opened connection, retries included.
    pub fresh_conn_sends: u64,
    /// TTFT of the requests sent on a newly opened connection.
    pub fresh_conn_ttft: Samples,
    /// Send to the mock's receipt of the whole request, pooled connections
    /// only.
    pub request_slip: Samples,
    /// Slips whose mock receipt preceded the send: the clocks differ.
    pub negative_slips: u64,
}

impl View for Diagnostics {
    type V = Diag;

    open spec fn view(&self) -> Diag {
        Diag {
            late_wakeups: self.late_wakeups as int,
            busy_loop_misses: self.busy_loop_misses as int,
            max_miss_ns: self.max_deadline_miss_ns as int,
            fresh_sends: self.fresh_conn_sends as int,
            negative_slips: self.negative_slips as int,
            slips: kept(self.request_slip),
            fresh_ttfts: kept(self.fresh_conn_ttft),
        }
    }
}

impl Diagnostics {
    /// Sums the intervals from `warmup_intervals` on.
    pub fn summarize(intervals: &Intervals, warmup_intervals: u64) -> (r: Self)
        requires
            intervals.wf(),
            intervals.from(0).fits(0),
        ensures
            r@ == intervals.from(warmup_intervals),
            r.request_slip is Some <==> r@.slips.len() > 0,
            r.fresh_conn_ttft is Some <==> r@.fresh_ttfts.len() > 0,
            bounded(r.request_slip, intervals.bounds),
            bounded(r.fresh_conn_ttft, intervals.bounds),
    {
        let mut sum = IntervalDiagnostics::new();
        let mut k: usize = 0;
        assert(intervals.entries@.take(0) =~= Seq::empty());
        while k < intervals.entries.len()
            invariant
                k <= intervals.entries@.len(),
                intervals.wf(),
                intervals.from(0).fits(0),
                sum.wf(intervals.bounds),
                sum@ == total(intervals.entries@.take(k as int), warmup_intervals),
            decreases intervals.entries@.len() - k,
        {
            let entry = &intervals.entries[k];
            proof {
                let next = intervals.entries@.take(k + 1);
                assert(next.drop_last() =~= intervals.entries@.take(k as int));
                lemma_total_prefix(intervals.entries@, k + 1);
                lemma_from_below(next, warmup_intervals);
            }
            if entry.0 >= warmup_intervals {
                sum.merge(&entry.1, intervals.bounds);
            }
            k += 1;
        }
        assert(intervals.entries@.take(k as int) =~= intervals.entries@);
        proof {
            broadcast use vstd::multiset::group_multiset_axioms;

            assert(kept(sum.request_slip).len() > 0 <==> sum.request_slip is Some);
            assert(kept(sum.fresh_ttft).len() > 0 <==> sum.fresh_ttft is Some);
        }
        Diagnostics {
            late_wakeups: sum.late_wakeups,
            busy_loop_misses: sum.busy_loop_misses,
            max_deadline_miss_ns: sum.max_miss_ns,
            fresh_conn_sends: sum.fresh_sends,
            fresh_conn_ttft: sum.fresh_ttft,
            request_slip: sum.request_slip,
            negative_slips: sum.negative_slips,
        }
    }

    /// Sends that missed their spin window.
    pub fn deadline_misses(&self) -> (r: u64)
        requires
            self.late_wakeups + self.busy_loop_misses <= u64::MAX,
        ensures
            r == self.late_wakeups + self.busy_loop_misses,
    {
        self.late_wakeups + self.busy_loop_misses
    }
}

proof fn lemma_from_below(entries: Seq<(u64, IntervalDiagnostics)>, warmup: u64)
    ensures
        within(total(entries, warmup), total(entries, 0)),
    decreases entries.len(),
{
    broadcast use vstd::multiset::group_multiset_axioms;

    if entries.len() > 0 {
        lemma_from_below(entries.drop_last(), warmup);
    }
}

/// An interval counts in the total exactly when it is not part of the
/// warmup.
pub proof fn law_the_warmup_is_left_out(
    entries: Seq<(u64, IntervalDiagnostics)>,
    index: u64,
    more: IntervalDiagnostics,
    warmup: u64,
)
    ensures
        total(entries.push((index, more)), warmup) == if index < warmup {
            total(entries, warmup)
        } else {
            total(entries, warmup).plus(more@)
        },
{
    assert(entries.push((index, more)).drop_last() =~= entries);
}

/// A time lies in the second that its index names, counted from the origin;
/// a time before the origin counts in the first.
pub proof fn law_an_interval_is_one_second(origin: u64, t: u64)
    ensures
        ({
            let i = interval_index(origin, t);
            &&& t >= origin ==> origin + i * 1_000_000_000 <= t < origin + (i + 1) * 1_000_000_000
            &&& t < origin ==> i == 0
        }),
{
}

/// Two diagnostics together count what both counted, hold the samples of both
/// and keep the larger miss.
pub proof fn law_diagnostics_add_up(a: Diag, b: Diag, sample: u64)
    ensures
        ({
            let both = a.plus(b);
            &&& both.late_wakeups == a.late_wakeups + b.late_wakeups
            &&& both.busy_loop_misses == a.busy_loop_misses + b.busy_loop_misses
            &&& both.fresh_sends == a.fresh_sends + b.fresh_sends
            &&& both.negative_slips == a.negative_slips + b.negative_slips
            &&& both.slips.count(sample) == a.slips.count(sample) + b.slips.count(sample)
            &&& both.fresh_ttfts.count(sample) == a.fresh_ttfts.count(sample)
                + b.fresh_ttfts.count(sample)
            &&& both.max_miss_ns >= a.max_miss_ns
            &&& both.max_miss_ns >= b.max_miss_ns
            &&& both.max_miss_ns == a.max_miss_ns || both.max_miss_ns == b.max_miss_ns
        }),
{
    broadcast use vstd::multiset::group_multiset_axioms;

}

} // verus!
