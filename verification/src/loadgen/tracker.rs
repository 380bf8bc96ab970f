//! What a shard keeps of the ramp steps in progress.

use crate::histogram;
use crate::histogram::{new_histogram, record, Bounds, Latencies};
use crate::loadgen::ramp::StepReport;
use crate::loadgen::schedule::RateSegment;
use crate::time;
use crate::time::later;
use vstd::multiset::Multiset;
use vstd::prelude::*;

verus! {

/// Ramp-mode configuration of a shard.
#[derive(Debug)]
pub struct RampSpec {
    /// The evaluated steps (step number >= 1) in order.
    pub steps: Vec<RateSegment>,
    /// Every step is reported this long after its planned end at the
    /// latest, earlier once all its sends are made and done. What is still
    /// open then, requests in flight and planned sends not made yet, is
    /// censored: each counts as a sample of the time since its scheduled
    /// start, which this delay makes exceed the p99 limit.
    pub judge_delay_ns: u64,
    /// A send the event loop reaches this long after its scheduled time
    /// means the shard cannot keep up with the schedule: it stops.
    pub saturation_lag_ns: u64,
    /// The p99 limit: a send reached later than this is counted as late, its
    /// request over the limit on the load generator's lag alone.
    pub stop_p99_ns: u64,
}

/// What happened in a step so far.
#[derive(Debug)]
pub struct StepAcc {
    /// Step number.
    pub step: u32,
    /// Latencies of the requests that succeeded.
    pub latency: Latencies,
    /// Requests started and not ended.
    pub outstanding: u64,
    /// Requests that succeeded.
    pub requests: u64,
    /// Requests that failed.
    pub errors: u64,
    /// Largest lag of a send.
    pub max_emit_lag_ns: u64,
    /// Sends made later than the p99 limit.
    pub late_sends: u64,
}

/// The plain contents of a step so far.
pub ghost struct Acc {
    /// Latency samples.
    pub samples: Multiset<u64>,
    /// Requests started and not ended.
    pub outstanding: int,
    /// Requests that succeeded.
    pub requests: int,
    /// Requests that failed.
    pub errors: int,
    /// Largest lag of a send.
    pub max_emit_lag_ns: int,
    /// Sends made later than the p99 limit.
    pub late_sends: int,
}

impl Acc {
    /// Nothing happened.
    pub open spec fn nothing() -> Acc {
        Acc {
            samples: Multiset::empty(),
            outstanding: 0,
            requests: 0,
            errors: 0,
            max_emit_lag_ns: 0,
            late_sends: 0,
        }
    }

    /// After a send reached `lag` late.
    pub open spec fn lagged(self, lag: u64) -> Acc {
        Acc { max_emit_lag_ns: time::larger(self.max_emit_lag_ns, lag as int), ..self }
    }

    /// After a request started `lag` late.
    pub open spec fn started(self, lag: u64, limit: u64) -> Acc {
        Acc {
            outstanding: self.outstanding + 1,
            late_sends: self.late_sends + if lag > limit {
                1int
            } else {
                0
            },
            ..self.lagged(lag)
        }
    }

    /// After a request ended, with the bucket of its latency if it
    /// succeeded.
    pub open spec fn done(self, bucket: Option<u64>) -> Acc {
        match bucket {
            Some(b) => Acc {
                samples: self.samples.insert(b),
                outstanding: self.outstanding - 1,
                requests: self.requests + 1,
                ..self
            },
            None => Acc {
                outstanding: self.outstanding - 1,
                errors: self.errors + 1,
                ..self
            },
        }
    }

    /// One more of anything can be counted.
    pub open spec fn has_room(self) -> bool {
        &&& self.outstanding < u64::MAX
        &&& self.requests < u64::MAX
        &&& self.errors < u64::MAX
        &&& self.late_sends < u64::MAX
    }
}

impl View for StepAcc {
    type V = Acc;

    open spec fn view(&self) -> Acc {
        Acc {
            samples: histogram::histogram_samples(self.latency),
            outstanding: self.outstanding as int,
            requests: self.requests as int,
            errors: self.errors as int,
            max_emit_lag_ns: self.max_emit_lag_ns as int,
            late_sends: self.late_sends as int,
        }
    }
}

/// What happened in `step` so far, if anything.
pub open spec fn acc_of(accs: Seq<StepAcc>, step: u32) -> Option<Acc>
    decreases accs.len(),
{
    if accs.len() == 0 {
        None
    } else if accs.last().step == step {
        Some(accs.last()@)
    } else {
        acc_of(accs.drop_last(), step)
    }
}

/// No step is kept twice.
pub open spec fn one_per_step(accs: Seq<StepAcc>) -> bool {
    forall|i: int, j: int|
        0 <= i < j < accs.len() ==> (#[trigger] accs[i]).step != (#[trigger] accs[j]).step
}

proof fn lemma_acc_at(accs: Seq<StepAcc>, at: int)
    requires
        0 <= at < accs.len(),
        one_per_step(accs),
    ensures
        acc_of(accs, accs[at].step) == Some(accs[at]@),
    decreases accs.len(),
{
    if at < accs.len() - 1 {
        assert(accs[at].step != accs[accs.len() - 1].step);
        assert(one_per_step(accs.drop_last()));
        lemma_acc_at(accs.drop_last(), at);
    }
}

proof fn lemma_acc_none(accs: Seq<StepAcc>, step: u32)
    requires
        forall|i: int| 0 <= i < accs.len() ==> (#[trigger] accs[i]).step != step,
    ensures
        acc_of(accs, step) is None,
    decreases accs.len(),
{
    if accs.len() > 0 {
        lemma_acc_none(accs.drop_last(), step);
    }
}

proof fn lemma_acc_remove(accs: Seq<StepAcc>, at: int, step: u32)
    requires
        0 <= at < accs.len(),
        step != accs[at].step,
    ensures
        acc_of(accs.remove(at), step) == acc_of(accs, step),
    decreases accs.len(),
{
    if at < accs.len() - 1 {
        assert(accs.remove(at).drop_last() =~= accs.drop_last().remove(at));
        lemma_acc_remove(accs.drop_last(), at, step);
    } else {
        assert(accs.remove(at) =~= accs.drop_last());
    }
}

/// The steps of a ramp that a shard has not reported yet.
#[derive(Debug)]
pub struct RampTracker {
    /// Configuration.
    pub spec: RampSpec,
    /// Bounds of the latency histograms.
    pub bounds: Bounds,
    /// Steps reported so far.
    pub next_report: usize,
    /// Steps in progress.
    pub steps: Vec<StepAcc>,
}

impl RampTracker {
    /// No step is kept twice, every sample is that of a request, and the
    /// histograms have the bounds.
    pub open spec fn wf(self) -> bool {
        &&& self.bounds.valid()
        &&& self.next_report <= self.spec.steps@.len()
        &&& one_per_step(self.steps@)
        &&& forall|i: int|
            0 <= i < self.steps@.len() ==> {
                &&& (#[trigger] self.steps@[i])@.samples.len() <= self.steps@[i]@.requests
                &&& histogram::histogram_bounds(self.steps@[i].latency) == self.bounds.tuple()
            }
    }

    /// What happened in `step` so far, if anything.
    pub open spec fn acc(self, step: u32) -> Option<Acc> {
        acc_of(self.steps@, step)
    }

    /// What happened in `step` so far.
    pub open spec fn so_far(self, step: u32) -> Acc {
        match self.acc(step) {
            Some(acc) => acc,
            None => Acc::nothing(),
        }
    }

    /// The step was reported.
    pub open spec fn is_reported(self, step: u32) -> bool {
        exists|i: int|
            0 <= i < self.next_report && i < self.spec.steps@.len() && (
            #[trigger] self.spec.steps@[i]).step == step
    }

    /// Everything but the steps in progress is the same.
    pub open spec fn same_plan(self, other: RampTracker) -> bool {
        &&& self.spec == other.spec
        &&& self.bounds == other.bounds
        &&& self.next_report == other.next_report
    }

    /// A tracker of a ramp that has not begun.
    pub fn new(spec: RampSpec, bounds: Bounds) -> (r: Self)
        requires
            bounds.valid(),
        ensures
            r.wf(),
            r.spec == spec,
            r.bounds == bounds,
            r.next_report == 0,
            forall|step: u32| #[trigger] r.acc(step) is None,
            forall|step: u32| !(#[trigger] r.is_reported(step)),
    {
        RampTracker { spec, bounds, next_report: 0, steps: Vec::new() }
    }

    /// Whether the step was reported.
    pub fn reported(&self, step: u32) -> (r: bool)
        requires
            self.wf(),
        ensures
            r == self.is_reported(step),
    {
        let mut i: usize = 0;
        while i < self.next_report
            invariant
                self.wf(),
                i <= self.next_report,
                forall|k: int| 0 <= k < i ==> (#[trigger] self.spec.steps@[k]).step != step,
            decreases self.next_report - i,
        {
            if self.spec.steps[i].step == step {
                assert(self.spec.steps@[i as int].step == step);
                return true;
            }
            i += 1;
        }
        false
    }

    fn find(&self, step: u32) -> (r: Option<usize>)
        requires
            self.wf(),
        ensures
            match r {
                Some(i) => i < self.steps@.len() && self.steps@[i as int].step == step && self.acc(
                    step,
                ) == Some(self.steps@[i as int]@),
                None => self.acc(step) is None && forall|k: int|
                    0 <= k < self.steps@.len() ==> (#[trigger] self.steps@[k]).step != step,
            },
    {
        let mut i: usize = 0;
        while i < self.steps.len()
            invariant
                self.wf(),
                i <= self.steps@.len(),
                forall|k: int| 0 <= k < i ==> (#[trigger] self.steps@[k]).step != step,
            decreases self.steps@.len() - i,
        {
            if self.steps[i].step == step {
                proof {
                    lemma_acc_at(self.steps@, i as int);
                }
                return Some(i);
            }
            i += 1;
        }
        proof {
            lemma_acc_none(self.steps@, step);
        }
        None
    }

    fn blank(&self, step: u32) -> (r: StepAcc)
        requires
            self.wf(),
        ensures
            r@ == Acc::nothing(),
            r.step == step,
            histogram::histogram_bounds(r.latency) == self.bounds.tuple(),
    {
        StepAcc {
            step,
            latency: new_histogram(self.bounds),
            outstanding: 0,
            requests: 0,
            errors: 0,
            max_emit_lag_ns: 0,
            late_sends: 0,
        }
    }

    /// Replaces what happened in a step so far.
    fn put(&mut self, acc: StepAcc)
        requires
            old(self).wf(),
            acc@.samples.len() <= acc@.requests,
            histogram::histogram_bounds(acc.latency) == old(self).bounds.tuple(),
            old(self).acc(acc.step) is None,
        ensures
            final(self).wf(),
            final(self).same_plan(*old(self)),
            final(self).acc(acc.step) == Some(acc@),
            forall|s: u32|
                s != acc.step ==> #[trigger] final(self).acc(s) == old(self).acc(s),
    {
        let ghost before = self.steps@;
        let ghost step = acc.step;
        proof {
            assert forall|k: int| 0 <= k < before.len() implies (#[trigger] before[k]).step
                != step by {
                if before[k].step == step {
                    lemma_acc_at(before, k);
                }
            }
        }
        self.steps.push(acc);
        proof {
            assert(self.steps@.drop_last() =~= before);
        }
    }

    /// Takes out what happened in a step so far.
    pub fn take(&mut self, step: u32) -> (r: StepAcc)
        requires
            old(self).wf(),
        ensures
            final(self).wf(),
            final(self).same_plan(*old(self)),
            final(self).acc(step) is None,
            forall|s: u32| s != step ==> #[trigger] final(self).acc(s) == old(self).acc(s),
            r.step == step,
            r@ == old(self).so_far(step),
            r@.samples.len() <= r@.requests,
            histogram::histogram_bounds(r.latency) == old(self).bounds.tuple(),
    {
        broadcast use vstd::multiset::group_multiset_axioms;

        match self.find(step) {
            None => self.blank(step),
            Some(i) => {
                let ghost before = self.steps@;
                let acc = self.steps.remove(i);
                proof {
                    assert(self.steps@ =~= before.remove(i as int));
                    assert forall|s: u32| s != step implies #[trigger] self.acc(s) == old(self).acc(
                        s,
                    ) by {
                        lemma_acc_remove(before, i as int, s);
                    }
                    assert forall|k: int| 0 <= k < self.steps@.len() implies (
                    #[trigger] self.steps@[k]).step != step by {
                        let was = if k < i {
                            k
                        } else {
                            k + 1
                        };
                        assert(self.steps@[k] == before[was]);
                        if was < i {
                            assert(before[was].step != before[i as int].step);
                        } else {
                            assert(before[i as int].step != before[was].step);
                        }
                    }
                    lemma_acc_none(self.steps@, step);
                    assert forall|a: int, b: int| 0 <= a < b < self.steps@.len() implies (
                    #[trigger] self.steps@[a]).step != (#[trigger] self.steps@[b]).step by {
                        let wa = if a < i {
                            a
                        } else {
                            a + 1
                        };
                        let wb = if b < i {
                            b
                        } else {
                            b + 1
                        };
                        assert(before[wa].step != before[wb].step);
                    }
                }
                acc
            },
        }
    }

    /// Notes a send of `step` reached `lag_ns` after its scheduled time.
    pub fn note_lag(&mut self, step: u32, lag_ns: u64)
        requires
            old(self).wf(),
        ensures
            final(self).wf(),
            final(self).same_plan(*old(self)),
            step == 0 ==> final(self).acc(0) == old(self).acc(0),
            step > 0 ==> final(self).acc(step) == Some(old(self).so_far(step).lagged(lag_ns)),
            forall|s: u32| s != step ==> #[trigger] final(self).acc(s) == old(self).acc(s),
    {
        if step == 0 {
            return ;
        }
        let mut acc = self.take(step);
        acc.max_emit_lag_ns = later(acc.max_emit_lag_ns, lag_ns);
        self.put(acc);
    }

    /// Notes a request of `step` started `lag_ns` after its scheduled time.
    pub fn on_start(&mut self, step: u32, lag_ns: u64)
        requires
            old(self).wf(),
            old(self).so_far(step).has_room(),
        ensures
            final(self).wf(),
            final(self).same_plan(*old(self)),
            step == 0 ==> final(self).acc(0) == old(self).acc(0),
            step > 0 ==> final(self).acc(step) == Some(
                old(self).so_far(step).started(lag_ns, old(self).spec.stop_p99_ns),
            ),
            forall|s: u32| s != step ==> #[trigger] final(self).acc(s) == old(self).acc(s),
    {
        if step == 0 {
            return ;
        }
        let mut acc = self.take(step);
        acc.max_emit_lag_ns = later(acc.max_emit_lag_ns, lag_ns);
        acc.outstanding += 1;
        if lag_ns > self.spec.stop_p99_ns {
            acc.late_sends += 1;
        }
        self.put(acc);
    }

    /// The deadline of the next step to report.
    pub fn next_deadline(&self) -> (r: Option<u64>)
        requires
            self.wf(),
        ensures
            r == if self.next_report < self.spec.steps@.len() {
                Some(
                    time::capped(
                        self.spec.steps@[self.next_report as int].end_ns
                            + self.spec.judge_delay_ns,
                    ),
                )
            } else {
                None
            },
    {
        if self.next_report < self.spec.steps.len() {
            Some(
                self.spec.steps[self.next_report].end_ns.saturating_add(self.spec.judge_delay_ns),
            )
        } else {
            None
        }
    }

    /// Notes that a request of `step` ended; `latency` is `None` for a
    /// failed one. Steps already reported counted their open requests as
    /// censored.
    pub fn on_done(&mut self, step: u32, latency: Option<u64>)
        requires
            old(self).wf(),
            old(self).acc(step) matches Some(acc) ==> acc.outstanding > 0 && acc.has_room(),
        ensures
            final(self).wf(),
            final(self).same_plan(*old(self)),
            final(self).acc(step) == match old(self).acc(step) {
                None => None,
                Some(acc) => Some(
                    acc.done(
                        match latency {
                            Some(ns) => Some(
                                histogram::histogram_bucket(old(self).bounds.tuple(), ns),
                            ),
                            None => None,
                        },
                    ),
                ),
            },
            forall|s: u32| s != step ==> #[trigger] final(self).acc(s) == old(self).acc(s),
    {
        broadcast use vstd::multiset::group_multiset_axioms;

        if self.find(step).is_none() {
            return ;
        }
        let mut acc = self.take(step);
        acc.outstanding -= 1;
        match latency {
            Some(ns) => {
                record(&mut acc.latency, ns);
                acc.requests += 1;
            },
            None => {
                acc.errors += 1;
            },
        }
        self.put(acc);
    }

    /// Requests of a step that were started and have not ended.
    pub fn outstanding(&self, step: u32) -> (r: u64)
        requires
            self.wf(),
        ensures
            r == self.so_far(step).outstanding,
    {
        match self.find(step) {
            Some(i) => self.steps[i].outstanding,
            None => 0,
        }
    }
}

impl StepAcc {
    /// The report of the step with nothing censored.
    pub fn report(self) -> (r: StepReport)
        ensures
            r.step == self.step,
            r.latency == self.latency,
            r.requests == self.requests,
            r.errors == self.errors,
            r.censored == 0,
            r.unsent == 0,
            r.max_emit_lag_ns == self.max_emit_lag_ns,
            r.late_sends == self.late_sends,
    {
        StepReport {
            step: self.step,
            latency: self.latency,
            requests: self.requests,
            errors: self.errors,
            censored: 0,
            unsent: 0,
            max_emit_lag_ns: self.max_emit_lag_ns,
            late_sends: self.late_sends,
        }
    }
}

/// A request that starts is one more outstanding; it counts as late exactly
/// when it started later than the limit, and the largest lag so far is kept.
/// Nothing has succeeded or failed by that.
pub proof fn law_a_start_is_outstanding_and_late_beyond_the_limit(
    acc: Acc,
    lag: u64,
    limit: u64,
)
    ensures
        ({
            let after = acc.started(lag, limit);
            &&& after.outstanding == acc.outstanding + 1
            &&& after.late_sends == acc.late_sends + if lag > limit {
                1int
            } else {
                0
            }
            &&& after.max_emit_lag_ns >= lag
            &&& after.max_emit_lag_ns >= acc.max_emit_lag_ns
            &&& after.max_emit_lag_ns == lag || after.max_emit_lag_ns == acc.max_emit_lag_ns
            &&& after.requests == acc.requests
            &&& after.errors == acc.errors
            &&& after.samples == acc.samples
            &&& acc.lagged(lag).max_emit_lag_ns == after.max_emit_lag_ns
            &&& acc.lagged(lag).outstanding == acc.outstanding
            &&& acc.lagged(lag).late_sends == acc.late_sends
        }),
{
}

/// A request that ends is one less outstanding, and either a success with a
/// sample or a failure without one: starts and ends balance.
pub proof fn law_an_end_is_a_success_or_a_failure(acc: Acc, bucket: Option<u64>)
    ensures
        ({
            let after = acc.done(bucket);
            &&& after.outstanding == acc.outstanding - 1
            &&& after.outstanding + after.requests + after.errors == acc.outstanding + acc.requests
                + acc.errors
            &&& bucket is Some <==> after.requests == acc.requests + 1
            &&& bucket is None <==> after.errors == acc.errors + 1
            &&& bucket matches Some(b) ==> after.samples == acc.samples.insert(b)
            &&& bucket is None ==> after.samples == acc.samples
            &&& after.max_emit_lag_ns == acc.max_emit_lag_ns
            &&& after.late_sends == acc.late_sends
        }),
{
}

} // verus!
