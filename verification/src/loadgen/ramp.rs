//! Judging the steps of a ramp from the reports of its shards.

use crate::histogram;
use crate::histogram::{merge, new_histogram, percentile, Bounds, Latencies};
use crate::loadgen::schedule::{RateSegment, SEC_NS};
use crate::text;
use crate::text::push_decimal;
use crate::time;
use crate::time::{earlier, later, saturating_product};
use vstd::multiset::Multiset;
use vstd::prelude::*;
use vstd::string::StringExecFns;

verus! {

/// Least time a ramp waits after a step's planned end before judging it,
/// beyond the p99 limit. A request of the step still open by then is
/// counted as a sample above the limit, and this leaves room for a late
/// wakeup of the event loop without holding up the verdict.
pub const RAMP_JUDGE_MARGIN_NS: u64 = 50_000_000;

/// A ramp shard whose sends fall this far behind their schedule is
/// saturated and ends the ramp at once.
pub const RAMP_SATURATION_LAG_NS: u64 = 100_000_000;

/// For short steps the saturation limit is this fraction of the step
/// instead (whichever is smaller).
pub const RAMP_SATURATION_STEP_DIVISOR: u64 = 10;

/// Requests of a ramp time out after this many times the p99 limit, and no
/// sooner than [`RAMP_MIN_REQUEST_TIMEOUT_NS`].
pub const RAMP_TIMEOUT_P99_FACTOR: u64 = 100;

/// Shortest request timeout of a ramp.
pub const RAMP_MIN_REQUEST_TIMEOUT_NS: u64 = SEC_NS;

/// Longest the coordinator waits past a step's judging deadline for the
/// report of every shard.
pub const RAMP_REPORT_GRACE_NS: u64 = 500_000_000;

/// Timing limits of a ramp, derived from its parameters.
#[derive(Debug, Clone, Copy, PartialEq, Eq, Structural)]
pub struct RampLimits {
    /// The p99 limit of a sustainable step.
    pub stop_p99_ns: u64,
    /// Delay after a step's planned end by which every shard reports it:
    /// the p99 limit plus a margin of twice the limit, the margin at least
    /// [`RAMP_JUDGE_MARGIN_NS`].
    pub judge_delay_ns: u64,
    /// Emit lag at which a shard is saturated.
    pub saturation_lag_ns: u64,
    /// Request timeout: the configured one, capped as
    /// [`RAMP_TIMEOUT_P99_FACTOR`] describes.
    pub request_timeout_ns: u64,
}

impl RampLimits {
    /// The limits of a ramp with this p99 limit, step length and request
    /// timeout.
    pub fn new(stop_p99_ns: u64, step_ns: u64, configured_timeout_ns: u64) -> (r: Self)
        ensures
            r.stop_p99_ns == stop_p99_ns,
            r.judge_delay_ns == time::smaller(
                stop_p99_ns + time::larger(2 * stop_p99_ns, RAMP_JUDGE_MARGIN_NS as int),
                u64::MAX as int,
            ),
            r.saturation_lag_ns == time::smaller(
                RAMP_SATURATION_LAG_NS as int,
                (step_ns / RAMP_SATURATION_STEP_DIVISOR) as int,
            ),
            r.request_timeout_ns == time::smaller(
                configured_timeout_ns as int,
                time::larger(
                    stop_p99_ns * RAMP_TIMEOUT_P99_FACTOR,
                    RAMP_MIN_REQUEST_TIMEOUT_NS as int,
                ),
            ),
            r.judge_delay_ns >= r.stop_p99_ns,
            r.saturation_lag_ns <= 100_000_000,
            r.saturation_lag_ns * 10 <= step_ns,
            r.request_timeout_ns <= configured_timeout_ns,
            stop_p99_ns <= 1_000_000_000_000 ==> r.judge_delay_ns >= 3 * stop_p99_ns,
    {
        let margin: u64 = later(saturating_product(stop_p99_ns, 2), RAMP_JUDGE_MARGIN_NS);
        let timeout: u64 = later(
            saturating_product(stop_p99_ns, RAMP_TIMEOUT_P99_FACTOR),
            RAMP_MIN_REQUEST_TIMEOUT_NS,
        );
        RampLimits {
            stop_p99_ns,
            judge_delay_ns: stop_p99_ns.saturating_add(margin),
            saturation_lag_ns: earlier(
                RAMP_SATURATION_LAG_NS,
                step_ns / RAMP_SATURATION_STEP_DIVISOR,
            ),
            request_timeout_ns: earlier(configured_timeout_ns, timeout),
        }
    }
}

/// Why a ramp step passed or failed.
#[derive(Debug, Clone, Copy, PartialEq, Eq, Structural)]
pub enum StepVerdict {
    /// Within the p99 limit and the error limit.
    Passed,
    /// No request of the step completed.
    NoRequests,
    /// More than 1% of the step's requests failed.
    Errors,
    /// The step's p99, censored samples included, exceeded the limit.
    P99Exceeded,
    /// The load generator could not deliver the step's schedule: a shard's
    /// sends fell behind by more than the saturation limit, a shard did not
    /// report the step in time, or the step's p99 exceeded the limit with
    /// more than 1% of its sends made later than the limit. Says nothing
    /// about the target.
    ToolSaturated,
}

/// One shard's view of one ramp step, or that of several shards merged.
#[derive(Debug)]
pub struct StepReport {
    /// Step number.
    pub step: u32,
    /// Request latencies from the scheduled time; requests still open and
    /// planned sends not made at report time contribute a lower bound.
    pub latency: Latencies,
    /// Requests completed successfully.
    pub requests: u64,
    /// Requests failed.
    pub errors: u64,
    /// Requests still open, plus the planned sends not made, when the step
    /// was reported.
    pub censored: u64,
    /// Planned sends of the step not made when it was reported. Part of
    /// `censored`; they are dropped, never sent.
    pub unsent: u64,
    /// Largest lag of a send of the step behind its scheduled time, taken
    /// when the event loop reached the send.
    pub max_emit_lag_ns: u64,
    /// Sends of the step made more than the p99 limit after their scheduled
    /// time.
    pub late_sends: u64,
}

/// The plain contents of a step report.
pub ghost struct Report {
    /// Step number.
    pub step: u32,
    /// Latency samples.
    pub samples: Multiset<u64>,
    /// Requests completed successfully.
    pub requests: int,
    /// Requests failed.
    pub errors: int,
    /// Requests open and sends not made.
    pub censored: int,
    /// Sends not made.
    pub unsent: int,
    /// Largest lag of a send.
    pub max_emit_lag_ns: int,
    /// Sends made later than the p99 limit.
    pub late_sends: int,
}

impl View for StepReport {
    type V = Report;

    open spec fn view(&self) -> Report {
        Report {
            step: self.step,
            samples: histogram::histogram_samples(self.latency),
            requests: self.requests as int,
            errors: self.errors as int,
            censored: self.censored as int,
            unsent: self.unsent as int,
            max_emit_lag_ns: self.max_emit_lag_ns as int,
            late_sends: self.late_sends as int,
        }
    }
}

impl Report {
    /// Nothing happened in the step.
    pub open spec fn nothing(step: u32) -> Report {
        Report {
            step,
            samples: Multiset::empty(),
            requests: 0,
            errors: 0,
            censored: 0,
            unsent: 0,
            max_emit_lag_ns: 0,
            late_sends: 0,
        }
    }

    /// Both reports of the same step together.
    pub open spec fn merged(self, other: Report) -> Report {
        Report {
            step: self.step,
            samples: self.samples.add(other.samples),
            requests: self.requests + other.requests,
            errors: self.errors + other.errors,
            censored: self.censored + other.censored,
            unsent: self.unsent + other.unsent,
            max_emit_lag_ns: time::larger(self.max_emit_lag_ns, other.max_emit_lag_ns),
            late_sends: self.late_sends + other.late_sends,
        }
    }

    /// Requests that ended.
    pub open spec fn total(self) -> int {
        self.requests + self.errors
    }

    /// Sends that were due.
    pub open spec fn sends(self) -> int {
        self.requests + self.errors + self.censored
    }

    /// Every sample is that of a request or of a send not made, and the
    /// counts can be added up.
    pub open spec fn countable(self) -> bool {
        &&& self.samples.len() <= self.requests + self.censored
        &&& self.requests + self.errors + self.censored <= u64::MAX
        &&& self.late_sends + self.unsent <= u64::MAX
    }

    /// The p99 of the step.
    pub open spec fn p99(self) -> u64 {
        histogram::histogram_percentile(self.samples, 99)
    }

    /// What the step is judged to be under a p99 limit: no request ended;
    /// over 1% of those that did failed; the p99 is within the limit; or it
    /// is over it, with over 1% of the sends late on the load generator's
    /// part, or with no more than that.
    pub open spec fn verdict(self, limit_ns: u64) -> StepVerdict {
        if self.total() == 0 {
            StepVerdict::NoRequests
        } else if 100 * self.errors > self.total() {
            StepVerdict::Errors
        } else if self.p99() <= limit_ns {
            StepVerdict::Passed
        } else if 100 * (self.late_sends + self.unsent) > self.sends() {
            StepVerdict::ToolSaturated
        } else {
            StepVerdict::P99Exceeded
        }
    }
}

/// The reports of two shards add up in either order.
pub proof fn law_reports_merge_in_any_order(a: Report, b: Report)
    requires
        a.step == b.step,
    ensures
        a.merged(b) == b.merged(a),
{
    broadcast use vstd::multiset::group_multiset_axioms;

    assert(a.samples.add(b.samples) =~= b.samples.add(a.samples));
}

/// The reports of three shards add up in any grouping.
pub proof fn law_reports_merge_in_any_grouping(a: Report, b: Report, c: Report)
    ensures
        a.merged(b).merged(c) == a.merged(b.merged(c)),
{
    broadcast use vstd::multiset::group_multiset_axioms;

    assert(a.samples.add(b.samples).add(c.samples) =~= a.samples.add(b.samples.add(c.samples)));
}

impl StepReport {
    /// The counts fit and the latencies are kept with these bounds.
    pub open spec fn wf(self, bounds: Bounds) -> bool {
        &&& self@.countable()
        &&& histogram::histogram_bounds(self.latency) == bounds.tuple()
    }

    /// A report of nothing.
    pub fn nothing(step: u32, bounds: Bounds) -> (r: Self)
        requires
            bounds.valid(),
        ensures
            r@ == Report::nothing(step),
            r.wf(bounds),
    {
        broadcast use vstd::multiset::group_multiset_axioms;

        StepReport {
            step,
            latency: new_histogram(bounds),
            requests: 0,
            errors: 0,
            censored: 0,
            unsent: 0,
            max_emit_lag_ns: 0,
            late_sends: 0,
        }
    }

    /// Whether the counts of both reports can be added up.
    pub fn can_merge(&self, other: &StepReport) -> (r: bool)
        requires
            self@.countable(),
            other@.countable(),
        ensures
            r == self@.merged(other@).countable(),
    {
        broadcast use vstd::multiset::group_multiset_axioms;

        let sends: u128 = self.requests as u128 + self.errors as u128 + self.censored as u128
            + other.requests as u128 + other.errors as u128 + other.censored as u128;
        let late: u128 = self.late_sends as u128 + self.unsent as u128 + other.late_sends as u128
            + other.unsent as u128;
        sends <= u64::MAX as u128 && late <= u64::MAX as u128
    }

    /// Adds one shard's report of a step to the others'.
    pub fn merge(&mut self, report: &StepReport)
        requires
            old(self)@.countable(),
            report@.countable(),
            old(self)@.merged(report@).countable(),
            histogram::histogram_bounds(old(self).latency) == histogram::histogram_bounds(
                report.latency,
            ),
            histogram::histogram_bounds(report.latency).1 < histogram::HIGH_LIMIT,
        ensures
            final(self)@ == old(self)@.merged(report@),
            histogram::histogram_bounds(final(self).latency) == histogram::histogram_bounds(
                old(self).latency,
            ),
    {
        broadcast use vstd::multiset::group_multiset_axioms;

        merge(&mut self.latency, &report.latency);
        self.requests += report.requests;
        self.errors += report.errors;
        self.censored += report.censored;
        self.unsent += report.unsent;
        if report.max_emit_lag_ns > self.max_emit_lag_ns {
            self.max_emit_lag_ns = report.max_emit_lag_ns;
        }
        self.late_sends += report.late_sends;
    }

    /// Judges the step under a p99 limit.
    pub fn verdict(&self, limit_ns: u64) -> (r: StepVerdict)
        requires
            self@.countable(),
        ensures
            r == self@.verdict(limit_ns),
    {
        let total: u64 = self.requests + self.errors;
        let sends: u64 = total + self.censored;
        if total == 0 {
            StepVerdict::NoRequests
        } else if 100 * (self.errors as u128) > total as u128 {
            StepVerdict::Errors
        } else if percentile(&self.latency, 99) <= limit_ns {
            StepVerdict::Passed
        } else if 100 * (self.late_sends as u128 + self.unsent as u128) > sends as u128 {
            StepVerdict::ToolSaturated
        } else {
            StepVerdict::P99Exceeded
        }
    }
}

/// What a ramp shard tells the coordinator.
#[derive(Debug)]
pub enum RampMessage {
    /// This shard's view of one step.
    Step(StepReport),
    /// The shard reached a send `lag_ns` after its scheduled time, beyond
    /// the saturation limit, and stopped. Its reports of the steps it had
    /// started follow once its requests in flight are settled.
    Saturated {
        /// Shard number.
        shard: usize,
        /// Step of the late send; 0 for the warmup.
        step: u32,
        /// How late the send was, nanoseconds.
        lag_ns: u64,
    },
}

/// Why a shard could not keep to the ramp's schedule.
#[derive(Debug, Clone, Copy, PartialEq, Eq, Structural)]
pub enum Cause {
    /// A shard reached a send too long after its scheduled time.
    LateSend {
        /// Shard number.
        shard: usize,
        /// How late the send was, nanoseconds.
        late_ns: u64,
    },
    /// Shards did not report a step in time.
    Unreported {
        /// How many.
        missing: usize,
    },
}

/// A shard that could not keep to the ramp's schedule.
#[derive(Debug, Clone, Copy, PartialEq, Eq, Structural)]
pub struct Saturation {
    /// Step it fell behind in; 0 for the warmup.
    pub step: u32,
    /// How late its send was, when known.
    pub lag_ns: Option<u64>,
    /// What happened.
    pub cause: Cause,
}

/// What ended a ramp.
#[derive(Debug, Clone, Copy, PartialEq, Eq, Structural)]
pub enum StopCause {
    /// The step completed no request.
    NoRequests,
    /// Too many of the step's requests failed.
    Errors {
        /// Requests that failed.
        errors: u64,
        /// Requests that ended.
        total: u64,
    },
    /// The step's p99 exceeded the limit.
    P99Exceeded,
    /// The step's p99 exceeded the limit, and too many of its sends were
    /// made later than that.
    LateSends {
        /// Sends made late or not at all.
        late: u64,
        /// Sends due.
        sends: u64,
    },
    /// A shard could not keep to the schedule.
    Saturated(Cause),
}

/// The verdict that ended a ramp and why.
#[derive(Debug, Clone, Copy, PartialEq, Eq, Structural)]
pub struct Stop {
    /// Step the ramp ended in; 0 for the warmup.
    pub step: u32,
    /// Verdict of the step.
    pub verdict: StepVerdict,
    /// What ended the ramp.
    pub cause: StopCause,
}

/// Result of one ramp step, all shards merged.
#[derive(Debug, Clone, Copy, PartialEq, Eq, Structural)]
pub struct RampStep {
    /// Step number.
    pub step: u32,
    /// Offered rate per second, as the bits of the floating-point number.
    pub rate: u64,
    /// Successful requests.
    pub requests: u64,
    /// Failed requests.
    pub errors: u64,
    /// Requests still open, and planned sends not made, when judged
    /// (recorded as lower bounds).
    pub censored: u64,
    /// Planned sends not made when judged; part of `censored`.
    pub unsent: u64,
    /// Median latency, nanoseconds.
    pub p50_ns: u64,
    /// 99th percentile latency, nanoseconds.
    pub p99_ns: u64,
    /// Largest lag of a send behind its scheduled time, nanoseconds.
    pub max_emit_lag_ns: u64,
    /// Sends made more than the p99 limit after their scheduled time.
    pub late_sends: u64,
    /// Within the p99 limit and the error limit.
    pub passed: bool,
    /// Why the step passed or failed.
    pub verdict: StepVerdict,
}

/// A judged step: `lag_ns` is the lag of a saturating send, which the step's
/// reports need not include.
pub open spec fn judged_step(
    seg: RateSegment,
    report: Report,
    verdict: StepVerdict,
    lag_ns: Option<u64>,
) -> RampStep {
    RampStep {
        step: seg.step,
        rate: seg.rate,
        requests: report.requests as u64,
        errors: report.errors as u64,
        censored: report.censored as u64,
        unsent: report.unsent as u64,
        p50_ns: histogram::histogram_percentile(report.samples, 50),
        p99_ns: report.p99(),
        max_emit_lag_ns: match lag_ns {
            None => report.max_emit_lag_ns as u64,
            Some(lag) => time::larger(lag as int, report.max_emit_lag_ns) as u64,
        },
        late_sends: report.late_sends as u64,
        passed: verdict == StepVerdict::Passed,
        verdict,
    }
}

/// Why a step with this report and verdict ends the ramp.
pub open spec fn stop_cause(report: Report, verdict: StepVerdict) -> StopCause {
    match verdict {
        StepVerdict::NoRequests => StopCause::NoRequests,
        StepVerdict::Errors => StopCause::Errors {
            errors: report.errors as u64,
            total: report.total() as u64,
        },
        StepVerdict::ToolSaturated => StopCause::LateSends {
            late: (report.late_sends + report.unsent) as u64,
            sends: report.sends() as u64,
        },
        _ => StopCause::P99Exceeded,
    }
}

/// The reports of one step that are in: how many shards reported, and what
/// they reported together.
#[derive(Debug)]
pub struct Pending {
    /// Shards that reported the step.
    pub reported: usize,
    /// Their merged report.
    pub report: StepReport,
}

impl View for Pending {
    type V = (nat, Report);

    open spec fn view(&self) -> (nat, Report) {
        (self.reported as nat, self.report@)
    }
}

/// The plain state of a ramp.
#[verifier::ext_equal]
pub ghost struct Ramp {
    /// Number of shards.
    pub shards: nat,
    /// Timing limits.
    pub limits: RampLimits,
    /// The evaluated steps in order.
    pub segments: Seq<RateSegment>,
    /// Reports of the steps not judged yet.
    pub received: Seq<(nat, Report)>,
    /// Judged steps in order.
    pub steps: Seq<RampStep>,
    /// The earliest step a shard saturated in.
    pub saturation: Option<Saturation>,
    /// What ended the ramp, once decided.
    pub stop: Option<Stop>,
}

/// Where the reports of `step` are.
pub open spec fn place_of(received: Seq<(nat, Report)>, step: u32) -> Option<int>
    decreases received.len(),
{
    if received.len() == 0 {
        None
    } else {
        match place_of(received.drop_last(), step) {
            Some(i) => Some(i),
            None => if received.last().1.step == step {
                Some(received.len() - 1)
            } else {
                None
            },
        }
    }
}

proof fn lemma_place(received: Seq<(nat, Report)>, step: u32, at: int)
    requires
        0 <= at <= received.len(),
        forall|i: int| 0 <= i < at ==> (#[trigger] received[i]).1.step != step,
        at < received.len() ==> received[at].1.step == step,
    ensures
        place_of(received, step) == if at < received.len() {
            Some(at)
        } else {
            None
        },
    decreases received.len(),
{
    if received.len() > 0 {
        let rest = received.drop_last();
        if at < received.len() - 1 {
            lemma_place(rest, step, at);
        } else {
            lemma_place(rest, step, rest.len() as int);
        }
    }
}

impl Ramp {
    /// How many shards reported `step`.
    pub open spec fn reported(self, step: u32) -> nat {
        match place_of(self.received, step) {
            Some(i) => self.received[i].0,
            None => 0,
        }
    }

    /// What the shards reported of `step`.
    pub open spec fn report_of(self, step: u32) -> Report {
        match place_of(self.received, step) {
            Some(i) => self.received[i].1,
            None => Report::nothing(step),
        }
    }

    /// The state without the reports of `step`.
    pub open spec fn without(self, step: u32) -> Ramp {
        match place_of(self.received, step) {
            Some(i) => Ramp { received: self.received.remove(i), ..self },
            None => self,
        }
    }

    /// A report can be added to those of its step: not every shard has
    /// reported the step, and the counts can be added up.
    pub open spec fn admits(self, report: Report) -> bool {
        match place_of(self.received, report.step) {
            Some(i) => self.received[i].0 < self.shards && self.received[i].1.merged(
                report,
            ).countable(),
            None => true,
        }
    }

    /// The state after a shard's report.
    pub open spec fn after_report(self, report: Report) -> Ramp {
        Ramp {
            received: match place_of(self.received, report.step) {
                Some(i) => self.received.update(
                    i,
                    (self.received[i].0 + 1, self.received[i].1.merged(report)),
                ),
                None => self.received.push((1, report)),
            },
            ..self
        }
    }

    /// The state after a shard saturated: the earliest step is kept.
    pub open spec fn after_saturation(self, saturation: Saturation) -> Ramp {
        Ramp {
            saturation: match self.saturation {
                Some(known) => if saturation.step < known.step {
                    Some(saturation)
                } else {
                    Some(known)
                },
                None => Some(saturation),
            },
            ..self
        }
    }

    /// The state after the reports of `seg` are judged.
    pub open spec fn after_judging(self, seg: RateSegment) -> Ramp {
        let report = self.report_of(seg.step);
        let verdict = report.verdict(self.limits.stop_p99_ns);
        Ramp {
            steps: self.steps.push(judged_step(seg, report, verdict, None)),
            stop: if verdict == StepVerdict::Passed {
                self.stop
            } else {
                Some(Stop { step: seg.step, verdict, cause: stop_cause(report, verdict) })
            },
            ..self.without(seg.step)
        }
    }

    /// The state after the ramp ends at `seg`, whose schedule the load
    /// generator could not keep, with what the shards reported of it; or at
    /// the warmup (or an already judged step) the saturation happened in.
    pub open spec fn after_saturated_stop(self, seg: RateSegment, saturation: Saturation) -> Ramp {
        let verdict = StepVerdict::ToolSaturated;
        let stop = Stop {
            step: saturation.step,
            verdict,
            cause: StopCause::Saturated(saturation.cause),
        };
        if saturation.step < seg.step {
            Ramp { stop: Some(stop), ..self }
        } else {
            Ramp {
                steps: self.steps.push(
                    judged_step(seg, self.report_of(seg.step), verdict, saturation.lag_ns),
                ),
                stop: Some(stop),
                ..self.without(seg.step)
            }
        }
    }

    /// When the reports of `seg` are overdue.
    pub open spec fn overdue_at(self, seg: RateSegment) -> u64 {
        time::capped(
            time::capped(seg.end_ns + self.limits.judge_delay_ns) + RAMP_REPORT_GRACE_NS,
        )
    }

    /// The state after every step that can be judged is judged, in order,
    /// and whether every shard must be stopped now. `now` is given while the
    /// shards run.
    pub open spec fn advanced(self, now: Option<u64>) -> (Ramp, bool)
        decreases self.segments.len() - self.steps.len(),
    {
        if self.stop is Some || self.steps.len() >= self.segments.len() {
            (self, false)
        } else {
            let seg = self.segments[self.steps.len() as int];
            if self.saturation is Some && self.saturation->Some_0.step <= seg.step {
                if now is None {
                    (self.after_saturated_stop(seg, self.saturation->Some_0), false)
                } else {
                    (self, false)
                }
            } else if self.reported(seg.step) == self.shards {
                let judged = self.after_judging(seg);
                let (rest, stops) = judged.advanced(now);
                (rest, stops || judged.stop is Some)
            } else if self.saturation is Some || now is None || now->Some_0 < self.overdue_at(seg) {
                (self, false)
            } else {
                (
                    self.after_saturation(
                        Saturation {
                            step: seg.step,
                            lag_ns: None,
                            cause: Cause::Unreported {
                                missing: (self.shards - self.reported(seg.step)) as usize,
                            },
                        },
                    ),
                    true,
                )
            }
        }
    }

    /// The judged steps are the first segments in order; all passed but
    /// possibly the last, and that only when the ramp has ended.
    pub open spec fn in_order(self) -> bool {
        &&& self.steps.len() <= self.segments.len()
        &&& forall|i: int|
            0 <= i < self.steps.len() ==> {
                &&& (#[trigger] self.steps[i]).step == self.segments[i].step
                &&& self.steps[i].rate == self.segments[i].rate
                &&& self.steps[i].passed == (self.steps[i].verdict == StepVerdict::Passed)
            }
        &&& forall|i: int|
            0 <= i < self.steps.len() - 1 ==> (#[trigger] self.steps[i]).passed
        &&& self.stop is None && self.steps.len() > 0 ==> self.steps.last().passed
        &&& self.stop matches Some(stop) ==> stop.verdict != StepVerdict::Passed
    }
}

/// Judges the ramp steps in order from the shards' reports and stops every
/// shard at the first step that fails or in which the load generator
/// saturates.
#[derive(Debug)]
pub struct RampCoordinator {
    /// Number of shards.
    pub shards: usize,
    /// Timing limits.
    pub limits: RampLimits,
    /// Bounds of the latency histograms.
    pub bounds: Bounds,
    /// The evaluated steps (step >= 1) in order.
    pub segments: Vec<RateSegment>,
    /// Reports of the steps not judged yet.
    pub received: Vec<Pending>,
    /// Judged steps in order.
    pub steps: Vec<RampStep>,
    /// The earliest step a shard saturated in.
    pub saturation: Option<Saturation>,
    /// What ended the ramp, once decided.
    pub stop: Option<Stop>,
}

/// The plain contents of pending reports.
pub open spec fn pending_views(received: Seq<Pending>) -> Seq<(nat, Report)> {
    Seq::new(received.len(), |i: int| received[i]@)
}

impl View for RampCoordinator {
    type V = Ramp;

    open spec fn view(&self) -> Ramp {
        Ramp {
            shards: self.shards as nat,
            limits: self.limits,
            segments: self.segments@,
            received: pending_views(self.received@),
            steps: self.steps@,
            saturation: self.saturation,
            stop: self.stop,
        }
    }
}

/// The evaluated segments of a schedule: those of a step.
pub open spec fn evaluated(segments: Seq<RateSegment>) -> Seq<RateSegment> {
    segments.filter(|s: RateSegment| s.step > 0)
}

/// The evaluated segments of a schedule: those of a step.
pub fn evaluated_steps(segments: &[RateSegment]) -> (r: Vec<RateSegment>)
    ensures
        r@ == evaluated(segments@),
{
    let mut kept: Vec<RateSegment> = Vec::new();
    let mut i: usize = 0;
    let ghost is_step = |s: RateSegment| s.step > 0;
    assert(segments@.take(0) =~= Seq::empty());
    proof {
        reveal(Seq::filter);
    }
    while i < segments.len()
        invariant
            i <= segments@.len(),
            is_step == (|s: RateSegment| s.step > 0),
            kept@ == segments@.take(i as int).filter(is_step),
        decreases segments@.len() - i,
    {
        proof {
            reveal(Seq::filter);
            assert(segments@.take(i + 1).drop_last() =~= segments@.take(i as int));
        }
        if segments[i].step > 0 {
            kept.push(segments[i]);
        }
        i += 1;
    }
    assert(segments@.take(i as int) =~= segments@);
    kept
}

impl RampCoordinator {
    /// Some shard runs the ramp, its steps are judged in order, and the
    /// reports can be merged.
    pub open spec fn wf(self) -> bool {
        &&& self.shards > 0
        &&& self.bounds.valid()
        &&& self@.in_order()
        &&& forall|i: int|
            0 <= i < self.received@.len() ==> {
                &&& (#[trigger] self.received@[i]).report.wf(self.bounds)
                &&& self.received@[i].reported <= self.shards
            }
    }

    /// A coordinator of `shards` shards over the steps among `segments`.
    pub fn new(shards: usize, limits: RampLimits, bounds: Bounds, segments: &[RateSegment]) -> (r:
        Self)
        requires
            shards > 0,
            bounds.valid(),
        ensures
            r.wf(),
            r.bounds == bounds,
            r@ == (Ramp {
                shards: shards as nat,
                limits,
                segments: evaluated(segments@),
                received: Seq::empty(),
                steps: Seq::empty(),
                saturation: None,
                stop: None,
            }),
    {
        let r = RampCoordinator {
            shards,
            limits,
            bounds,
            segments: evaluated_steps(segments),
            received: Vec::new(),
            steps: Vec::new(),
            saturation: None,
            stop: None,
        };
        assert(r@.received =~= Seq::empty());
        r
    }

    /// Where the reports of `step` are.
    fn find(&self, step: u32) -> (r: Option<usize>)
        ensures
            match r {
                Some(i) => place_of(self@.received, step) == Some(i as int) && i
                    < self.received@.len() && self.received@[i as int].report.step == step,
                None => place_of(self@.received, step) is None,
            },
    {
        let mut i: usize = 0;
        while i < self.received.len()
            invariant
                i <= self.received@.len(),
                forall|k: int| 0 <= k < i ==> (#[trigger] self@.received[k]).1.step != step,
            decreases self.received@.len() - i,
        {
            assert(self@.received[i as int] == self.received@[i as int]@);
            if self.received[i].report.step == step {
                proof {
                    lemma_place(self@.received, step, i as int);
                }
                return Some(i);
            }
            i += 1;
        }
        proof {
            lemma_place(self@.received, step, i as int);
        }
        None
    }

    /// Whether a report can be added to those of its step.
    pub fn can_take(&self, report: &StepReport) -> (r: bool)
        requires
            self.wf(),
            report.wf(self.bounds),
        ensures
            r == self@.admits(report@),
    {
        match self.find(report.step) {
            Some(i) => self.received[i].reported < self.shards && self.received[i].report.can_merge(
                report,
            ),
            None => true,
        }
    }

    /// Takes in a shard's message. Returns whether every shard must be
    /// stopped: a saturated shard stops every shard at once; the step it
    /// saturated in is judged once the steps before it are.
    pub fn on_message(&mut self, message: RampMessage) -> (r: bool)
        requires
            old(self).wf(),
            message matches RampMessage::Step(report) ==> report.wf(old(self).bounds) && old(
                self,
            )@.admits(report@),
        ensures
            final(self).wf(),
            final(self).bounds == old(self).bounds,
            match message {
                RampMessage::Step(report) => !r && final(self)@ == old(self)@.after_report(report@),
                RampMessage::Saturated { shard, step, lag_ns } => r && final(self)@ == old(
                    self,
                )@.after_saturation(
                    Saturation {
                        step,
                        lag_ns: Some(lag_ns),
                        cause: Cause::LateSend { shard, late_ns: lag_ns },
                    },
                ),
            },
    {
        match message {
            RampMessage::Step(report) => {
                match self.find(report.step) {
                    Some(i) => {
                        let pending = &mut self.received[i];
                        pending.report.merge(&report);
                        pending.reported += 1;
                        assert(self@.received =~= old(self)@.after_report(report@).received);
                    },
                    None => {
                        self.received.push(Pending { reported: 1, report });
                        assert(self@.received =~= old(self)@.after_report(report@).received);
                    },
                }
                false
            },
            RampMessage::Saturated { shard, step, lag_ns } => {
                self.saturate(
                    Saturation {
                        step,
                        lag_ns: Some(lag_ns),
                        cause: Cause::LateSend { shard, late_ns: lag_ns },
                    },
                );
                true
            },
        }
    }

    fn saturate(&mut self, saturation: Saturation)
        requires
            old(self).wf(),
        ensures
            final(self).wf(),
            final(self).bounds == old(self).bounds,
            final(self)@ == old(self)@.after_saturation(saturation),
    {
        match self.saturation {
            Some(known) => if saturation.step < known.step {
                self.saturation = Some(saturation);
            },
            None => {
                self.saturation = Some(saturation);
            },
        }
    }

    /// Takes the reports of `step` out.
    fn take(&mut self, step: u32) -> (r: StepReport)
        requires
            old(self).wf(),
        ensures
            final(self).wf(),
            final(self).bounds == old(self).bounds,
            final(self)@ == old(self)@.without(step),
            r@ == old(self)@.report_of(step),
            r.wf(old(self).bounds),
    {
        match self.find(step) {
            Some(i) => {
                assert(self@.received[i as int] == self.received@[i as int]@);
                let pending = self.received.remove(i);
                assert(self@.received =~= old(self)@.received.remove(i as int));
                pending.report
            },
            None => StepReport::nothing(step, self.bounds),
        }
    }

    /// Adds a judged step to the outcome. `lag_ns` is the lag of a
    /// saturating send, which the step's reports need not include.
    fn record(
        &mut self,
        seg: RateSegment,
        report: &StepReport,
        verdict: StepVerdict,
        lag_ns: Option<u64>,
    )
        requires
            report@.countable(),
        ensures
            final(self).bounds == old(self).bounds,
            final(self).received == old(self).received,
            final(self)@ == (Ramp {
                steps: old(self)@.steps.push(judged_step(seg, report@, verdict, lag_ns)),
                ..old(self)@
            }),
    {
        let max_emit_lag_ns: u64 = match lag_ns {
            None => report.max_emit_lag_ns,
            Some(lag) => later(lag, report.max_emit_lag_ns),
        };
        self.steps.push(
            RampStep {
                step: seg.step,
                rate: seg.rate,
                requests: report.requests,
                errors: report.errors,
                censored: report.censored,
                unsent: report.unsent,
                p50_ns: percentile(&report.latency, 50),
                p99_ns: percentile(&report.latency, 99),
                max_emit_lag_ns,
                late_sends: report.late_sends,
                passed: match verdict {
                    StepVerdict::Passed => true,
                    _ => false,
                },
                verdict,
            },
        );
    }

    /// Judges a step every shard reported; returns whether it passed. A p99
    /// over the limit is the tool's when the sends the load generator made
    /// later than the limit decide it on their own.
    fn judge(&mut self, seg: RateSegment) -> (r: bool)
        requires
            old(self).wf(),
            old(self)@.stop is None,
            old(self)@.steps.len() < old(self)@.segments.len(),
            seg == old(self)@.segments[old(self)@.steps.len() as int],
        ensures
            final(self).wf(),
            final(self).bounds == old(self).bounds,
            final(self)@ == old(self)@.after_judging(seg),
            r == (final(self)@.stop is None),
    {
        let report = self.take(seg.step);
        let verdict = report.verdict(self.limits.stop_p99_ns);
        self.record(seg, &report, verdict, None);
        let total: u64 = report.requests + report.errors;
        let cause = match verdict {
            StepVerdict::Passed => {
                return true;
            },
            StepVerdict::NoRequests => StopCause::NoRequests,
            StepVerdict::Errors => StopCause::Errors { errors: report.errors, total },
            StepVerdict::P99Exceeded => StopCause::P99Exceeded,
            StepVerdict::ToolSaturated => StopCause::LateSends {
                late: report.late_sends + report.unsent,
                sends: total + report.censored,
            },
        };
        self.stop = Some(Stop { step: seg.step, verdict, cause });
        false
    }

    /// Ends the ramp at `seg`, whose schedule the load generator could not
    /// keep.
    fn stop_saturated(&mut self, seg: RateSegment, saturation: Saturation)
        requires
            old(self).wf(),
            old(self)@.stop is None,
            old(self)@.steps.len() < old(self)@.segments.len(),
            seg == old(self)@.segments[old(self)@.steps.len() as int],
        ensures
            final(self).wf(),
            final(self).bounds == old(self).bounds,
            final(self)@ == old(self)@.after_saturated_stop(seg, saturation),
    {
        let verdict = StepVerdict::ToolSaturated;
        let stop = Stop {
            step: saturation.step,
            verdict,
            cause: StopCause::Saturated(saturation.cause),
        };
        if saturation.step >= seg.step {
            let report = self.take(seg.step);
            self.record(seg, &report, verdict, saturation.lag_ns);
        }
        self.stop = Some(stop);
    }

    /// Judges every step that can be judged, in order; returns whether every
    /// shard must be stopped now. `now` is given while the shards run: a
    /// step whose reports are still missing [`RAMP_REPORT_GRACE_NS`] after
    /// its deadline then saturates the ramp, and a saturated step waits for
    /// the reports its stopped shards send. `None` once every shard has
    /// ended and all their messages are in.
    pub fn advance(&mut self, now: Option<u64>) -> (r: bool)
        requires
            old(self).wf(),
        ensures
            final(self).wf(),
            final(self).bounds == old(self).bounds,
            (final(self)@, r) == old(self)@.advanced(now),
    {
        let mut stops = false;
        while self.stop.is_none()
            invariant_except_break
                self.wf(),
                self.bounds == old(self).bounds,
                ({
                    let (rest, more) = self@.advanced(now);
                    old(self)@.advanced(now) == (rest, stops || more)
                }),
            ensures
                self.wf(),
                self.bounds == old(self).bounds,
                old(self)@.advanced(now) == (self@, stops),
            decreases self.segments@.len() - self.steps@.len(),
        {
            if self.steps.len() >= self.segments.len() {
                break;
            }
            let seg = self.segments[self.steps.len()];
            if let Some(saturation) = self.saturation {
                if saturation.step <= seg.step {
                    if now.is_none() {
                        self.stop_saturated(seg, saturation);
                    }
                    break;
                }
            }
            let reported: usize = match self.find(seg.step) {
                Some(i) => {
                    assert(self@.received[i as int] == self.received@[i as int]@);
                    self.received[i].reported
                },
                None => 0,
            };
            if reported == self.shards {
                if !self.judge(seg) {
                    stops = true;
                }
                continue;
            }
            let deadline: u64 = seg.end_ns.saturating_add(
                self.limits.judge_delay_ns,
            ).saturating_add(RAMP_REPORT_GRACE_NS);
            let overdue = match now {
                Some(now) => now >= deadline,
                None => false,
            };
            if self.saturation.is_some() || !overdue {
                break;
            }
            let missing: usize = self.shards - reported;
            self.saturate(
                Saturation { step: seg.step, lag_ns: None, cause: Cause::Unreported { missing } },
            );
            stops = true;
            break;
        }
        stops
    }

    /// The outcome, once every shard has ended and its messages are in. It
    /// is an error when a step was neither judged nor ended the ramp.
    pub fn finish(self) -> (r: Result<RampOutcome, RampError>)
        requires
            self.wf(),
        ensures
            ({
                let end = self@.advanced(None).0;
                if end.stop is None && end.steps.len() < end.segments.len() {
                    r == Err::<RampOutcome, RampError>(
                        RampError { step: end.segments[end.steps.len() as int].step },
                    )
                } else {
                    r matches Ok(outcome) && outcome.limits == self.limits && outcome.steps@
                        == end.steps && outcome.stop == end.stop && outcome.shards == self.shards
                        && outcome.max_sustainable_rate == sustainable_rate(end.steps)
                }
            }),
    {
        let mut ramp = self;
        ramp.advance(None);
        proof {
            law_steps_are_judged_in_order(self@, None);
        }
        if ramp.stop.is_none() && ramp.steps.len() < ramp.segments.len() {
            return Err(RampError { step: ramp.segments[ramp.steps.len()].step });
        }
        let mut passed: usize = 0;
        while passed < ramp.steps.len() && ramp.steps[passed].passed
            invariant
                passed <= ramp.steps@.len(),
                forall|i: int| 0 <= i < passed ==> (#[trigger] ramp.steps@[i]).passed,
            decreases ramp.steps@.len() - passed,
        {
            passed += 1;
        }
        proof {
            lemma_sustained(ramp.steps@, passed as nat);
        }
        let max_sustainable_rate: Option<u64> = if passed > 0 {
            Some(ramp.steps[passed - 1].rate)
        } else {
            None
        };
        Ok(
            RampOutcome {
                limits: ramp.limits,
                shards: ramp.shards,
                steps: ramp.steps,
                stop: ramp.stop,
                max_sustainable_rate,
            },
        )
    }
}

/// Outcome of a ramp.
#[derive(Debug)]
pub struct RampOutcome {
    /// Timing limits.
    pub limits: RampLimits,
    /// Number of shards.
    pub shards: usize,
    /// Judged steps in order, up to and including the failing one.
    pub steps: Vec<RampStep>,
    /// What ended the ramp; `None` when every step passed.
    pub stop: Option<Stop>,
    /// Rate of the last step before the first failing one, as the bits of
    /// the floating-point number.
    pub max_sustainable_rate: Option<u64>,
}

/// A ramp that ended before a step was reported by every shard.
#[derive(Debug, Clone, Copy, PartialEq, Eq, Structural)]
pub struct RampError {
    /// The step.
    pub step: u32,
}

impl RampError {
    /// What the error says.
    pub fn message(&self) -> (r: String)
        ensures
            r@ == "the ramp ended before step "@ + text::decimal_chars(self.step as nat)
                + " was reported by every shard"@,
    {
        let mut s = String::from_str("the ramp ended before step ");
        push_decimal(&mut s, self.step as u64);
        s.append(" was reported by every shard");
        s
    }
}

/// How many steps passed before the first that did not.
pub open spec fn sustained(steps: Seq<RampStep>) -> nat
    decreases steps.len(),
{
    if steps.len() == 0 || !steps[0].passed {
        0
    } else {
        1 + sustained(steps.drop_first())
    }
}

/// The rate of the last step before the first failing one.
pub open spec fn sustainable_rate(steps: Seq<RampStep>) -> Option<u64> {
    let n = sustained(steps);
    if n == 0 {
        None
    } else {
        Some(steps[n - 1].rate)
    }
}

proof fn lemma_sustained(steps: Seq<RampStep>, n: nat)
    requires
        n <= steps.len(),
        forall|i: int| 0 <= i < n ==> (#[trigger] steps[i]).passed,
        n < steps.len() ==> !steps[n as int].passed,
    ensures
        sustained(steps) == n,
    decreases n,
{
    if n > 0 {
        assert(steps[0].passed);
        let rest = steps.drop_first();
        assert forall|i: int| 0 <= i < n - 1 implies (#[trigger] rest[i]).passed by {
            assert(rest[i] == steps[i + 1]);
        }
        lemma_sustained(rest, (n - 1) as nat);
    }
}

impl RampOutcome {
    /// Verdict of the step, or of the warmup, that ended the ramp; `None`
    /// when every step passed.
    pub fn stop_reason(&self) -> (r: Option<StepVerdict>)
        ensures
            r == match self.stop {
                Some(stop) => Some(stop.verdict),
                None => None,
            },
    {
        match self.stop {
            Some(stop) => Some(stop.verdict),
            None => None,
        }
    }

    /// Why the ramp ended.
    pub open spec fn why(self, figures: Figures) -> Seq<char> {
        match self.stop {
            None => "all steps passed (--ramp-max-steps reached)"@,
            Some(stop) => {
                let step = name_of(stop.step);
                match stop.cause {
                    StopCause::NoRequests => step + " completed no request"@,
                    StopCause::Errors { .. } => step + " failed "@ + figures.share_percent@
                        + "% of its requests"@,
                    StopCause::P99Exceeded => step + " p99 exceeded the limit"@,
                    StopCause::LateSends { .. } => step + ": p99 exceeded the limit, and "@
                        + figures.share_percent@ + "% of its sends went out more than the "@
                        + figures.limit_ms@
                        + " ms limit after their scheduled time: loadgen emit lag, tool saturated"@,
                    StopCause::Saturated(cause) => step + ": "@ + cause.text(
                        self.shards,
                        figures,
                    ),
                }
            },
        }
    }

    /// Why the ramp ended, with the figures that have decimals.
    pub fn stopped_by(&self, figures: &Figures) -> (r: String)
        ensures
            r@ == self.why(*figures),
    {
        let stop = match self.stop {
            None => {
                return String::from_str("all steps passed (--ramp-max-steps reached)");
            },
            Some(stop) => stop,
        };
        let mut s = step_name(stop.step);
        match stop.cause {
            StopCause::NoRequests => {
                s.append(" completed no request");
            },
            StopCause::Errors { .. } => {
                s.append(" failed ");
                s.append(&figures.share_percent);
                s.append("% of its requests");
            },
            StopCause::P99Exceeded => {
                s.append(" p99 exceeded the limit");
            },
            StopCause::LateSends { .. } => {
                s.append(": p99 exceeded the limit, and ");
                s.append(&figures.share_percent);
                s.append("% of its sends went out more than the ");
                s.append(&figures.limit_ms);
                s.append(
                    " ms limit after their scheduled time: loadgen emit lag, tool saturated",
                );
            },
            StopCause::Saturated(cause) => {
                s.append(": ");
                let told = cause.message(self.shards, figures);
                s.append(&told);
            },
        }
        s
    }
}

/// Figures of a ramp's end that have decimals, rendered.
#[derive(Debug)]
pub struct Figures {
    /// Share of failed requests or late sends, percent.
    pub share_percent: String,
    /// The p99 limit, milliseconds.
    pub limit_ms: String,
    /// Lag of the saturating send, milliseconds.
    pub lag_ms: String,
    /// Lag at which a shard is saturated, milliseconds.
    pub saturation_ms: String,
}

impl Cause {
    /// What the load generator could not do, on a ramp of `shards` shards.
    pub open spec fn text(self, shards: usize, figures: Figures) -> Seq<char> {
        match self {
            Cause::LateSend { shard, .. } => "shard "@ + text::decimal_chars(shard as nat)
                + " reached a send "@ + figures.lag_ms@
                + " ms after its scheduled time, beyond the "@ + figures.saturation_ms@
                + " ms limit: loadgen emit lag, tool saturated"@,
            Cause::Unreported { missing } => text::decimal_chars(missing as nat) + " of "@
                + text::decimal_chars(shards as nat)
                + " shard(s) did not report it within 500 ms of its deadline: loadgen stalled, tool saturated"@,
        }
    }

    /// What the load generator could not do, with the figures that have
    /// decimals.
    pub fn message(&self, shards: usize, figures: &Figures) -> (r: String)
        ensures
            r@ == self.text(shards, *figures),
    {
        match self {
            Cause::LateSend { shard, .. } => {
                let mut s = String::from_str("shard ");
                push_decimal(&mut s, *shard as u64);
                s.append(" reached a send ");
                s.append(&figures.lag_ms);
                s.append(" ms after its scheduled time, beyond the ");
                s.append(&figures.saturation_ms);
                s.append(" ms limit: loadgen emit lag, tool saturated");
                s
            },
            Cause::Unreported { missing } => {
                let mut s = String::new();
                push_decimal(&mut s, *missing as u64);
                s.append(" of ");
                push_decimal(&mut s, shards as u64);
                s.append(
                    " shard(s) did not report it within 500 ms of its deadline: loadgen stalled, tool saturated",
                );
                assert(s@ =~= self.text(shards, *figures));
                s
            },
        }
    }
}

/// "warmup" for step 0, "step N" otherwise.
pub open spec fn name_of(step: u32) -> Seq<char> {
    if step == 0 {
        "warmup"@
    } else {
        "step "@ + text::decimal_chars(step as nat)
    }
}

/// "warmup" for step 0, "step N" otherwise.
pub fn step_name(step: u32) -> (r: String)
    ensures
        r@ == name_of(step),
{
    if step == 0 {
        String::from_str("warmup")
    } else {
        let mut s = String::from_str("step ");
        push_decimal(&mut s, step as u64);
        s
    }
}

/// Judging keeps the steps in order: the judged ones are the first segments,
/// and all but the last of them passed.
pub proof fn law_steps_are_judged_in_order(ramp: Ramp, now: Option<u64>)
    requires
        ramp.in_order(),
    ensures
        ramp.advanced(now).0.in_order(),
        ramp.advanced(now).0.segments == ramp.segments,
        ramp.advanced(now).0.shards == ramp.shards,
        ramp.advanced(now).0.limits == ramp.limits,
        ramp.steps.is_prefix_of(ramp.advanced(now).0.steps),
    decreases ramp.segments.len() - ramp.steps.len(),
{
    if ramp.stop is None && ramp.steps.len() < ramp.segments.len() {
        let seg = ramp.segments[ramp.steps.len() as int];
        if !(ramp.saturation is Some && ramp.saturation->Some_0.step <= seg.step) {
            if ramp.reported(seg.step) == ramp.shards {
                let judged = ramp.after_judging(seg);
                assert(judged.in_order());
                law_steps_are_judged_in_order(judged, now);
                let end = judged.advanced(now).0;
                assert(ramp.steps.is_prefix_of(end.steps)) by {
                    assert(ramp.steps.is_prefix_of(judged.steps));
                    assert forall|i: int| 0 <= i < ramp.steps.len() implies ramp.steps[i]
                        == end.steps[i] by {
                        assert(judged.steps[i] == end.steps[i]);
                    }
                }
            }
        } else if now is None {
            assert(ramp.after_saturated_stop(seg, ramp.saturation->Some_0).in_order());
        }
    }
}

/// A ramp whose steps are in order ends at its first failing step: every
/// judged step before the last passed, and one that failed is the last.
pub proof fn law_a_ramp_ends_at_its_first_failing_step(ramp: Ramp, i: int)
    requires
        ramp.in_order(),
        0 <= i < ramp.steps.len(),
        !ramp.steps[i].passed,
    ensures
        i == ramp.steps.len() - 1,
        ramp.stop is Some,
        sustained(ramp.steps) == i,
{
    lemma_sustained(ramp.steps, i as nat);
}

/// The sustainable rate is offered by a step that passed, with every step
/// before it, and the step after it, if any was judged, failed.
pub proof fn law_the_sustainable_rate_is_that_of_the_last_step_before_the_first_failure(ramp: Ramp)
    requires
        ramp.in_order(),
    ensures
        ({
            let n = sustained(ramp.steps);
            &&& n <= ramp.steps.len()
            &&& forall|i: int| 0 <= i < n ==> (#[trigger] ramp.steps[i]).passed
            &&& n < ramp.steps.len() ==> !ramp.steps[n as int].passed && n == ramp.steps.len() - 1
            &&& sustainable_rate(ramp.steps) == if n == 0 {
                None
            } else {
                Some(ramp.segments[n - 1].rate)
            }
        }),
{
    let n = ramp.steps.len();
    if n > 0 && !ramp.steps.last().passed {
        lemma_sustained(ramp.steps, (n - 1) as nat);
    } else {
        lemma_sustained(ramp.steps, n);
    }
}

/// Once a ramp has ended nothing is judged any more.
pub proof fn law_an_ended_ramp_stays_as_it_is(ramp: Ramp, now: Option<u64>)
    requires
        ramp.stop is Some,
    ensures
        ramp.advanced(now) == (ramp, false),
{
}

/// Advancing twice at the same time judges no more than advancing once.
pub proof fn law_advancing_again_changes_nothing(ramp: Ramp, now: Option<u64>)
    ensures
        ramp.advanced(now).0.advanced(now) == (ramp.advanced(now).0, false),
    decreases ramp.segments.len() - ramp.steps.len(),
{
    if ramp.stop is None && ramp.steps.len() < ramp.segments.len() {
        let seg = ramp.segments[ramp.steps.len() as int];
        if !(ramp.saturation is Some && ramp.saturation->Some_0.step <= seg.step) {
            if ramp.reported(seg.step) == ramp.shards {
                law_advancing_again_changes_nothing(ramp.after_judging(seg), now);
            }
        }
    }
}

/// Of two shards that saturate, the earlier step is kept, whichever is told
/// of first.
pub proof fn law_the_earliest_saturation_is_kept(ramp: Ramp, a: Saturation, b: Saturation)
    ensures
        ramp.after_saturation(a).after_saturation(b).saturation->Some_0.step
            == ramp.after_saturation(b).after_saturation(a).saturation->Some_0.step,
        ramp.after_saturation(a).saturation->Some_0.step <= a.step,
        ramp.saturation matches Some(known) ==> ramp.after_saturation(a).saturation->Some_0.step
            <= known.step,
        ramp.saturation matches Some(known) ==> ramp.after_saturation(a).saturation == if a.step
            < known.step {
            Some(a)
        } else {
            Some(known)
        },
        ramp.saturation is None ==> ramp.after_saturation(a).saturation == Some(a),
{
}

/// A step before the one a shard saturated in is still judged by its
/// reports.
pub proof fn law_saturation_is_judged_after_the_steps_before_it(ramp: Ramp, now: Option<u64>)
    requires
        ramp.stop is None,
        ramp.steps.len() < ramp.segments.len(),
        ramp.saturation is Some,
        ramp.saturation->Some_0.step > ramp.segments[ramp.steps.len() as int].step,
        ramp.reported(ramp.segments[ramp.steps.len() as int].step) == ramp.shards,
    ensures
        ({
            let seg = ramp.segments[ramp.steps.len() as int];
            ramp.advanced(now).0 == ramp.after_judging(seg).advanced(now).0
        }),
{
}

/// A step passes exactly when a request of it ended, no more than 1% of those
/// that did failed, and its p99, censored samples included, is within the
/// limit. A step over the limit is held against the load generator exactly
/// when more than 1% of the sends due were late or not made, and against the
/// target otherwise.
pub proof fn law_a_step_passes_only_within_both_limits(report: Report, limit_ns: u64)
    ensures
        ({
            let verdict = report.verdict(limit_ns);
            let ended = report.requests + report.errors;
            let few_failed = 100 * report.errors <= ended;
            let fast = histogram::histogram_percentile(report.samples, 99) <= limit_ns;
            let due = report.requests + report.errors + report.censored;
            let late = 100 * (report.late_sends + report.unsent) > due;
            &&& verdict == StepVerdict::Passed <==> ended != 0 && few_failed && fast
            &&& verdict == StepVerdict::NoRequests <==> ended == 0
            &&& verdict == StepVerdict::Errors <==> ended != 0 && !few_failed
            &&& verdict == StepVerdict::ToolSaturated <==> ended != 0 && few_failed && !fast && late
            &&& verdict == StepVerdict::P99Exceeded <==> ended != 0 && few_failed && !fast && !late
        }),
{
}

/// A step that passes under a limit passes under any higher one.
pub proof fn law_a_higher_limit_fails_no_step(report: Report, limit_ns: u64, higher_ns: u64)
    requires
        report.verdict(limit_ns) == StepVerdict::Passed,
        limit_ns <= higher_ns,
    ensures
        report.verdict(higher_ns) == StepVerdict::Passed,
{
}

/// The reports of two shards of a step count what both counted, hold the
/// samples of both, and keep the larger lag.
pub proof fn law_merged_reports_lose_nothing(a: Report, b: Report, sample: u64)
    ensures
        ({
            let both = a.merged(b);
            &&& both.step == a.step
            &&& both.requests == a.requests + b.requests
            &&& both.errors == a.errors + b.errors
            &&& both.censored == a.censored + b.censored
            &&& both.unsent == a.unsent + b.unsent
            &&& both.late_sends == a.late_sends + b.late_sends
            &&& both.samples.count(sample) == a.samples.count(sample) + b.samples.count(sample)
            &&& both.max_emit_lag_ns >= a.max_emit_lag_ns
            &&& both.max_emit_lag_ns >= b.max_emit_lag_ns
            &&& both.max_emit_lag_ns == a.max_emit_lag_ns || both.max_emit_lag_ns
                == b.max_emit_lag_ns
        }),
{
    broadcast use vstd::multiset::group_multiset_axioms;

}

/// A judged step is shown with the counts and percentiles of its reports, at
/// the rate of its segment, and as passed exactly when its verdict says so.
pub proof fn law_a_judged_step_shows_its_report(
    seg: RateSegment,
    report: Report,
    verdict: StepVerdict,
    lag_ns: Option<u64>,
)
    requires
        report.countable(),
        0 <= report.requests,
        0 <= report.errors,
        0 <= report.censored,
        0 <= report.unsent,
        0 <= report.late_sends,
        0 <= report.max_emit_lag_ns <= u64::MAX,
    ensures
        ({
            let step = judged_step(seg, report, verdict, lag_ns);
            &&& step.step == seg.step
            &&& step.rate == seg.rate
            &&& step.requests == report.requests
            &&& step.errors == report.errors
            &&& step.censored == report.censored
            &&& step.unsent == report.unsent
            &&& step.late_sends == report.late_sends
            &&& step.p50_ns == histogram::histogram_percentile(report.samples, 50)
            &&& step.p99_ns == histogram::histogram_percentile(report.samples, 99)
            &&& step.max_emit_lag_ns >= report.max_emit_lag_ns
            &&& lag_ns matches Some(lag) ==> step.max_emit_lag_ns >= lag
            &&& lag_ns is None ==> step.max_emit_lag_ns == report.max_emit_lag_ns
            &&& step.verdict == verdict
            &&& step.passed <==> verdict == StepVerdict::Passed
        }),
{
}

/// A step is not judged before every shard has reported it. Until then, and
/// until the grace of 500 ms after its judging deadline is over, nothing
/// changes; past that, the step saturates the ramp and the shards are stopped,
/// naming how many reports are missing.
pub proof fn law_a_step_waits_for_every_shard(ramp: Ramp, now: u64)
    requires
        ramp.stop is None,
        ramp.saturation is None,
        ramp.steps.len() < ramp.segments.len(),
        ramp.reported(ramp.segments[ramp.steps.len() as int].step) < ramp.shards,
        ramp.shards <= usize::MAX,
        ramp.segments[ramp.steps.len() as int].end_ns + ramp.limits.judge_delay_ns + 500_000_000
            <= u64::MAX,
    ensures
        ({
            let seg = ramp.segments[ramp.steps.len() as int];
            let late = now >= seg.end_ns + ramp.limits.judge_delay_ns + 500_000_000;
            let (after, stops) = ramp.advanced(Some(now));
            &&& stops <==> late
            &&& after.steps == ramp.steps
            &&& after.stop is None
            &&& !late ==> after == ramp
            &&& late ==> (after.saturation matches Some(s) && s.step == seg.step
                && s.lag_ns is None && s.cause == Cause::Unreported {
                missing: (ramp.shards - ramp.reported(seg.step)) as usize,
            })
        }),
{
    reveal_with_fuel(Ramp::advanced, 2);
}

/// A step that every shard has reported is judged by their merged reports:
/// the ramp goes on exactly when it passes, and ends there with its verdict
/// otherwise.
pub proof fn law_a_reported_step_is_judged_by_its_reports(ramp: Ramp, seg: RateSegment)
    requires
        ramp.stop is None,
    ensures
        ({
            let report = ramp.report_of(seg.step);
            let verdict = report.verdict(ramp.limits.stop_p99_ns);
            let after = ramp.after_judging(seg);
            &&& after.steps.len() == ramp.steps.len() + 1
            &&& after.steps.last().step == seg.step
            &&& after.steps.last().verdict == verdict
            &&& after.steps.last().passed == (verdict == StepVerdict::Passed)
            &&& after.stop is None <==> verdict == StepVerdict::Passed
            &&& after.stop matches Some(stop) ==> stop.step == seg.step && stop.verdict == verdict
        }),
{
}

/// A shard's report is counted once, in its own step: that step has one more
/// report, and holds what it held and the report together.
pub proof fn law_a_report_counts_in_its_own_step(ramp: Ramp, report: Report)
    ensures
        ({
            let after = ramp.after_report(report);
            &&& after.reported(report.step) == ramp.reported(report.step) + 1
            &&& ramp.reported(report.step) > 0 || place_of(ramp.received, report.step) is Some
                ==> after.report_of(report.step) == ramp.report_of(report.step).merged(report)
            &&& place_of(ramp.received, report.step) is None ==> after.report_of(report.step)
                == report
            &&& after.steps == ramp.steps
            &&& after.stop == ramp.stop
            &&& after.saturation == ramp.saturation
        }),
{
    let after = ramp.after_report(report);
    lemma_place_is(ramp.received, report.step);
    lemma_place_is(after.received, report.step);
    match place_of(ramp.received, report.step) {
        Some(i) => {
            lemma_place(after.received, report.step, i);
        },
        None => {
            lemma_place(after.received, report.step, ramp.received.len() as int);
        },
    }
}

/// Where the reports of a step are found, they are of that step, and the
/// first of it.
proof fn lemma_place_is(received: Seq<(nat, Report)>, step: u32)
    ensures
        match place_of(received, step) {
            Some(i) => 0 <= i < received.len() && received[i].1.step == step && forall|j: int|
                0 <= j < i ==> (#[trigger] received[j]).1.step != step,
            None => forall|j: int|
                0 <= j < received.len() ==> (#[trigger] received[j]).1.step != step,
        },
    decreases received.len(),
{
    if received.len() > 0 {
        let rest = received.drop_last();
        lemma_place_is(rest, step);
        assert forall|j: int| 0 <= j < rest.len() implies #[trigger] rest[j] == received[j] by {}
        match place_of(rest, step) {
            Some(i) => {
                assert forall|j: int| 0 <= j < i implies (#[trigger] received[j]).1.step != step by {
                    assert(rest[j].1.step != step);
                }
            },
            None => {
                assert forall|j: int| 0 <= j < rest.len() implies (#[trigger] received[j]).1.step
                    != step by {
                    assert(rest[j].1.step != step);
                }
            },
        }
    }
}

/// What ends a ramp is told with the figures of the step: how many of the
/// requests that ended failed, or how many of the sends due were late or not
/// made.
pub proof fn law_the_cause_of_a_stop_carries_the_figures_of_the_step(ramp: Ramp, seg: RateSegment)
    requires
        ramp.stop is None,
        ramp.report_of(seg.step).countable(),
        0 <= ramp.report_of(seg.step).requests,
        0 <= ramp.report_of(seg.step).errors,
        0 <= ramp.report_of(seg.step).censored,
        0 <= ramp.report_of(seg.step).unsent,
        0 <= ramp.report_of(seg.step).late_sends,
    ensures
        ({
            let report = ramp.report_of(seg.step);
            ramp.after_judging(seg).stop matches Some(stop) ==> match stop.cause {
                StopCause::NoRequests => report.requests + report.errors == 0,
                StopCause::Errors { errors, total } => errors == report.errors && total
                    == report.requests + report.errors && 100 * errors > total,
                StopCause::LateSends { late, sends } => late == report.late_sends + report.unsent
                    && sends == report.requests + report.errors + report.censored && 100 * late
                    > sends,
                StopCause::P99Exceeded => histogram::histogram_percentile(report.samples, 99)
                    > ramp.limits.stop_p99_ns,
                StopCause::Saturated(_) => false,
            }
        }),
{
}

/// A ramp whose load generator could not keep the schedule of a step ends
/// there, with that step failed and the figures reported of it; in the
/// warmup, or in a step already judged, it ends with no further step. Either
/// way the cause is the one that was noted.
pub proof fn law_a_saturated_ramp_ends_with_the_step_failed(
    ramp: Ramp,
    seg: RateSegment,
    saturation: Saturation,
)
    ensures
        ({
            let after = ramp.after_saturated_stop(seg, saturation);
            &&& after.stop matches Some(stop) && stop.step == saturation.step && stop.verdict
                == StepVerdict::ToolSaturated && stop.cause == StopCause::Saturated(
                saturation.cause,
            )
            &&& saturation.step < seg.step ==> after.steps == ramp.steps
            &&& saturation.step >= seg.step ==> {
                &&& after.steps.len() == ramp.steps.len() + 1
                &&& after.steps.drop_last() == ramp.steps
                &&& after.steps.last().step == seg.step
                &&& after.steps.last().rate == seg.rate
                &&& after.steps.last().verdict == StepVerdict::ToolSaturated
                &&& !after.steps.last().passed
                &&& after.steps.last().p99_ns == histogram::histogram_percentile(
                    ramp.report_of(seg.step).samples,
                    99,
                )
            }
        }),
{
    let after = ramp.after_saturated_stop(seg, saturation);
    if saturation.step >= seg.step {
        assert(after.steps.drop_last() =~= ramp.steps);
    }
}

/// The steps that are judged are those behind the warmup, in order.
pub proof fn law_every_step_but_the_warmup_is_judged(segments: Seq<RateSegment>, more: RateSegment)
    ensures
        evaluated(Seq::empty()).len() == 0,
        evaluated(segments.push(more)) == if more.step != 0 {
            evaluated(segments).push(more)
        } else {
            evaluated(segments)
        },
{
    let all = segments.push(more);
    assert(all.drop_last() =~= segments);
    reveal(Seq::filter);
}

/// A report is taken as long as some shard has yet to report the step and the
/// counts fit.
pub proof fn law_a_report_is_taken_until_every_shard_has_reported(ramp: Ramp, report: Report)
    ensures
        place_of(ramp.received, report.step) is None ==> ramp.admits(report),
        ramp.admits(report) && place_of(ramp.received, report.step) is Some ==> ramp.reported(
            report.step,
        ) < ramp.shards,
        place_of(ramp.received, report.step) is Some && ramp.reported(report.step) < ramp.shards
            && ramp.report_of(report.step).merged(report).countable() ==> ramp.admits(report),
{
}

} // verus!
