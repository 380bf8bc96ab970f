//! Scenario orchestration: what every shard of a run is given, when the run
//! ends, what its main thread does while the shards run, and how their
//! outputs add up.

use crate::histogram::Bounds;
use crate::loadgen::cli::CpuSet;
use crate::loadgen::diagnostics::{merge_into, Intervals};
use crate::loadgen::flight::Mode;
use crate::loadgen::planned::PlannedLoad;
use crate::loadgen::ramp;
use crate::loadgen::ramp::{evaluated_steps, RampLimits};
use crate::loadgen::schedule;
use crate::loadgen::schedule::{
    ramp_segments, share, FixedArrivals, RateSegment, StreamArrivals, StreamPlan,
    PREBUILD_SPREAD_NS, SEC_NS,
};
use crate::loadgen::shard;
use crate::loadgen::shard::{advance, Counters, ShardConfig, ShardOutput};
use crate::loadgen::tracker::RampSpec;
use crate::text;
use crate::text::push_decimal;
use crate::time;
use crate::time::{later, saturating_product};
use crate::wire::MARKER_LEN;
use vstd::prelude::*;
use vstd::string::StringExecFns;

verus! {

/// Time between choosing the origin and the first scheduled request, so
/// every shard thread is up and pinned before it matters.
pub const STARTUP_LEAD_NS: u64 = 200_000_000;

/// Descriptors kept free beyond the connections.
pub const FD_HEADROOM: u64 = 256;

/// A shard that ends this long before the others failed.
pub const EARLY_END_NS: u64 = 100_000_000;

/// Bounds of the main thread's wait.
pub const MIN_WAIT_NS: u64 = 1_000_000;

/// Bounds of the main thread's wait.
pub const MAX_WAIT_NS: u64 = 100_000_000;

/// The CPUs of shard `index`: its own where there is one for each shard,
/// otherwise the whole set.
pub open spec fn cpus_of(list: Option<Seq<usize>>, shards: nat, index: int) -> Option<Seq<usize>> {
    match list {
        None => None,
        Some(cpus) => if cpus.len() == shards {
            Some(seq![cpus[index]])
        } else {
            Some(cpus)
        },
    }
}

/// Splits the CPU list over the shards: one CPU each when the counts match,
/// otherwise the whole set for every shard.
pub fn assign_cpus(list: Option<&CpuSet>, shards: usize) -> (r: Vec<Option<Vec<usize>>>)
    ensures
        r@.len() == shards,
        forall|i: int|
            0 <= i < shards ==> match (#[trigger] r@[i], list) {
                (None, None) => true,
                (Some(cpus), Some(set)) => cpus_of(Some(set.0@), shards as nat, i) == Some(cpus@),
                _ => false,
            },
{
    let mut out: Vec<Option<Vec<usize>>> = Vec::new();
    let mut i: usize = 0;
    while i < shards
        invariant
            i <= shards,
            out@.len() == i,
            forall|k: int|
                0 <= k < i ==> match (#[trigger] out@[k], list) {
                    (None, None) => true,
                    (Some(cpus), Some(set)) => cpus_of(Some(set.0@), shards as nat, k) == Some(
                        cpus@,
                    ),
                    _ => false,
                },
        decreases shards - i,
    {
        match list {
            None => {
                out.push(None);
            },
            Some(set) => {
                let mut cpus: Vec<usize> = Vec::new();
                if set.0.len() == shards {
                    cpus.push(set.0[i]);
                    assert(cpus@ =~= seq![set.0@[i as int]]);
                } else {
                    let mut k: usize = 0;
                    while k < set.0.len()
                        invariant
                            k <= set.0@.len(),
                            cpus@ == set.0@.take(k as int),
                        decreases set.0@.len() - k,
                    {
                        cpus.push(set.0[k]);
                        k += 1;
                        assert(cpus@ =~= set.0@.take(k as int));
                    }
                    assert(cpus@ =~= set.0@);
                }
                out.push(Some(cpus));
            },
        }
        i += 1;
    }
    out
}

/// The seed of shard `index`.
pub open spec fn seed_of(seed: u64, index: u64) -> u64 {
    seed ^ vstd::wrapping::u64_specs::wrapping_mul((index + 1) as u64, 0x9e37_79b9_7f4a_7c15)
}

/// Seed of shard `index`; distinct per shard and stable across runs.
pub fn shard_seed(seed: u64, index: usize) -> (r: u64)
    requires
        index < usize::MAX,
    ensures
        r == seed_of(seed, index as u64),
{
    seed ^ (index as u64 + 1).wrapping_mul(0x9e37_79b9_7f4a_7c15)
}

/// No two shards of a run have the same seed.
pub proof fn law_shard_seeds_are_distinct(seed: u64, i: u64, j: u64)
    requires
        i < u64::MAX,
        j < u64::MAX,
        i != j,
    ensures
        seed_of(seed, i) != seed_of(seed, j),
{
    let m: int = 0x9e37_79b9_7f4a_7c15;
    let range: int = 0x1_0000_0000_0000_0000;
    let a = (i + 1) as int;
    let b = (j + 1) as int;
    let pa = vstd::wrapping::u64_specs::wrapping_mul((i + 1) as u64, 0x9e37_79b9_7f4a_7c15);
    let pb = vstd::wrapping::u64_specs::wrapping_mul((j + 1) as u64, 0x9e37_79b9_7f4a_7c15);
    if seed_of(seed, i) == seed_of(seed, j) {
        assert(pa == pb) by (bit_vector)
            requires
                seed ^ pa == seed ^ pb,
        ;
        let qa = (a * m) / range;
        let qb = (b * m) / range;
        assert(pa == (a * m) % range);
        assert(pb == (b * m) % range);
        assert(a * m == qa * range + pa);
        assert(b * m == qb * range + pb);
        // The multiplier is odd: times its inverse it is one more than a
        // multiple of the range.
        assert(m * 0xf1de_83e1_9937_733d == 1 + 10_771_413_168_148_108_919 * range);
        let t = (qa - qb) * 0xf1de_83e1_9937_733d - (a - b) * 10_771_413_168_148_108_919;
        assert((a - b) * m == (qa - qb) * range);
        assert(a - b == t * range);
        assert(a == b);
    }
}

/// Converts seconds from the command line to nanoseconds.
pub fn secs_ns(s: u64) -> (r: u64)
    ensures
        r == time::capped(s * SEC_NS),
{
    saturating_product(s, SEC_NS)
}

/// The common origin for the monotonic time, and the matching start for the
/// wall-clock time, milliseconds.
pub fn choose_origin(mono_ns: u64, wall_ns: u64) -> (r: (u64, u64))
    requires
        mono_ns + STARTUP_LEAD_NS <= u64::MAX,
        wall_ns + STARTUP_LEAD_NS <= u64::MAX,
    ensures
        r.0 == mono_ns + STARTUP_LEAD_NS,
        r.1 == (wall_ns + STARTUP_LEAD_NS) / 1_000_000,
{
    (mono_ns + STARTUP_LEAD_NS, (wall_ns + STARTUP_LEAD_NS) / 1_000_000)
}

/// Whether the run uses TLS. The target and the options have to agree on it.
pub fn check_tls(https: bool, has_ca: bool) -> (r: Result<bool, String>)
    ensures
        match r {
            Ok(tls) => https == has_ca && tls == https,
            Err(why) => https != has_ca && why@ == if https {
                "an https target needs --tls-ca"@
            } else {
                "--tls-ca was given for a plaintext http target"@
            },
        },
{
    if https == has_ca {
        Ok(https)
    } else if https {
        Err(String::from_str("an https target needs --tls-ca"))
    } else {
        Err(String::from_str("--tls-ca was given for a plaintext http target"))
    }
}

/// Checks that the descriptor limit, if there is one, leaves room for the
/// connections.
pub fn check_descriptors(limit: Option<u64>, connections: u64) -> (r: Result<(), String>)
    requires
        connections + FD_HEADROOM <= u64::MAX,
    ensures
        match (r, limit) {
            (Ok(()), None) => true,
            (Ok(()), Some(n)) => n >= connections + FD_HEADROOM,
            (Err(why), Some(n)) => n < connections + FD_HEADROOM && why@ == "RLIMIT_NOFILE is "@
                + text::decimal_chars(n as nat) + ", below the "@ + text::decimal_chars(
                (connections + FD_HEADROOM) as nat,
            ) + " descriptors this run may need; raise the hard limit"@,
            (Err(_), None) => false,
        },
{
    match limit {
        None => Ok(()),
        Some(n) => {
            let needed: u64 = connections + FD_HEADROOM;
            if n >= needed {
                Ok(())
            } else {
                let mut why = String::from_str("RLIMIT_NOFILE is ");
                push_decimal(&mut why, n);
                why.append(", below the ");
                push_decimal(&mut why, needed);
                why.append(" descriptors this run may need; raise the hard limit");
                Err(why)
            }
        },
    }
}

/// Checks that every shard has a stream to run.
pub fn check_shards(shards: u16, concurrency: u32) -> (r: Result<(), String>)
    ensures
        match r {
            Ok(()) => shards <= concurrency,
            Err(why) => shards > concurrency && why@ == "--shards "@ + text::decimal_chars(
                shards as nat,
            ) + " exceeds the "@ + text::decimal_chars(concurrency as nat)
                + " concurrent streams"@,
        },
{
    if shards as u32 <= concurrency {
        Ok(())
    } else {
        let mut why = String::from_str("--shards ");
        push_decimal(&mut why, shards as u64);
        why.append(" exceeds the ");
        push_decimal(&mut why, concurrency as u64);
        why.append(" concurrent streams");
        Err(why)
    }
}

/// Whether the mock embeds a marker in completions whose content has this
/// length: in every one that has room for it.
pub fn markers_expected(resp_bytes: u32) -> (r: bool)
    ensures
        r == (resp_bytes >= MARKER_LEN),
{
    resp_bytes >= MARKER_LEN
}

/// How whole responses are measured.
pub fn whole_mode(ttft_us: u64, resp_bytes: u32) -> (r: Mode)
    ensures
        r == (Mode::Whole {
            ttft_ns: time::capped(ttft_us * 1_000),
            marker: resp_bytes >= MARKER_LEN,
        }),
{
    Mode::Whole {
        ttft_ns: saturating_product(ttft_us, 1_000),
        marker: markers_expected(resp_bytes),
    }
}

/// How the streams that answer large bodies are measured.
pub fn bigbody_mode(ttft_us: u64, interval_us: u64) -> (r: Mode)
    ensures
        r == (Mode::Stream {
            ttft_ns: time::capped(ttft_us * 1_000),
            interval_ns: time::capped(interval_us * 1_000),
        }),
{
    Mode::Stream {
        ttft_ns: saturating_product(ttft_us, 1_000),
        interval_ns: saturating_product(interval_us, 1_000),
    }
}

/// The scenario of a whole-response run. The summary of a ramp mixes every
/// step's rate, so it is kept apart from fixed-rate results.
pub fn nonstream_scenario(is_ramp: bool) -> (r: &'static str)
    ensures
        r@ == if is_ramp {
            "nonstream-ramp"@
        } else {
            "nonstream"@
        },
{
    if is_ramp {
        "nonstream-ramp"
    } else {
        "nonstream"
    }
}

/// The scenario of a run with bodies of the labelled size.
pub fn bigbody_scenario(label: &str) -> (r: String)
    ensures
        r@ == "bigbody-"@ + label@,
{
    let mut out = String::from_str("bigbody-");
    out.append(label);
    out
}

/// How the rate of a whole-response run goes.
#[derive(Debug)]
pub enum RateMode {
    /// One rate throughout.
    Fixed {
        /// Requests per second, as the bits of the floating-point number.
        rate: u64,
        /// Measurement window after the warmup, seconds.
        measure_s: u64,
    },
    /// A step for each rate.
    Ramp {
        /// Rate of the warmup, as the bits of the floating-point number.
        start: u64,
        /// Rates of the steps, as the bits of the floating-point numbers.
        rates: Vec<u64>,
        /// Step length, seconds.
        step_s: u64,
    },
}

/// The one segment of a fixed-rate run.
pub open spec fn fixed_plan(origin_ns: u64, end_ns: u64, rate: u64) -> Seq<RateSegment> {
    seq![RateSegment { start_ns: origin_ns, end_ns, rate, step: 0 }]
}

/// When the last segment of the run ends.
pub open spec fn last_end(mode: RateMode, origin_ns: u64, warmup_s: u64) -> int {
    match mode {
        RateMode::Fixed { measure_s, .. } => origin_ns + time::capped(warmup_s * SEC_NS)
            + time::capped(measure_s * SEC_NS),
        RateMode::Ramp { rates, step_s, .. } => origin_ns + time::capped(warmup_s * SEC_NS)
            + rates@.len() * time::capped(step_s * SEC_NS),
    }
}

/// When the run ends: a ramp once its last step can be judged.
pub open spec fn run_end(mode: RateMode, origin_ns: u64, warmup_s: u64, limits: RampLimits) -> int {
    match mode {
        RateMode::Fixed { .. } => last_end(mode, origin_ns, warmup_s),
        RateMode::Ramp { .. } => last_end(mode, origin_ns, warmup_s) + limits.judge_delay_ns,
    }
}

/// The schedule of a whole-response run: its segments and its end. A ramp
/// ends once its last step can be judged.
pub fn nonstream_schedule(
    mode: &RateMode,
    origin_ns: u64,
    warmup_s: u64,
    limits: RampLimits,
) -> (r: (Vec<RateSegment>, u64))
    requires
        run_end(*mode, origin_ns, warmup_s, limits) <= u64::MAX,
        mode matches RateMode::Ramp { rates, .. } ==> 0 < rates@.len() <= u32::MAX,
    ensures
        r.1 == run_end(*mode, origin_ns, warmup_s, limits),
        r.0@ == match mode {
            RateMode::Fixed { rate, .. } => fixed_plan(origin_ns, r.1, *rate),
            RateMode::Ramp { start, rates, step_s } => schedule::ramp_plan(
                origin_ns as int,
                time::capped(warmup_s * SEC_NS) as int,
                *start,
                rates@,
                time::capped(step_s * SEC_NS) as int,
            ),
        },
{
    let warmup_ns: u64 = secs_ns(warmup_s);
    match mode {
        RateMode::Fixed { rate, measure_s } => {
            let end_ns: u64 = origin_ns + warmup_ns + secs_ns(*measure_s);
            let mut segments: Vec<RateSegment> = Vec::new();
            segments.push(RateSegment { start_ns: origin_ns, end_ns, rate: *rate, step: 0 });
            assert(segments@ =~= fixed_plan(origin_ns, end_ns, *rate));
            (segments, end_ns)
        },
        RateMode::Ramp { start, rates, step_s } => {
            let step_ns: u64 = secs_ns(*step_s);
            let segments = ramp_segments(
                origin_ns,
                warmup_ns,
                *start,
                rates.as_slice(),
                step_ns,
            );
            let last: RateSegment = segments[segments.len() - 1];
            assert(last.end_ns == last_end(*mode, origin_ns, warmup_s));
            (segments, last.end_ns + limits.judge_delay_ns)
        },
    }
}

/// The schedule of a run with large bodies: its segment and its end.
pub fn bigbody_schedule(origin_ns: u64, warmup_s: u64, measure_s: u64, rate: u64) -> (r: (
    Vec<RateSegment>,
    u64,
))
    requires
        warmup_s + measure_s <= u64::MAX,
        origin_ns + time::capped((warmup_s + measure_s) * SEC_NS) <= u64::MAX,
    ensures
        r.1 == origin_ns + time::capped((warmup_s + measure_s) * SEC_NS),
        r.0@ == fixed_plan(origin_ns, r.1, rate),
{
    let end_ns: u64 = origin_ns + secs_ns(warmup_s + measure_s);
    let mut segments: Vec<RateSegment> = Vec::new();
    segments.push(RateSegment { start_ns: origin_ns, end_ns, rate, step: 0 });
    assert(segments@ =~= fixed_plan(origin_ns, end_ns, rate));
    (segments, end_ns)
}

/// An evenly spaced phase with whole responses or large bodies.
#[derive(Debug)]
pub struct FixedPhase {
    /// Number of shards.
    pub shards: usize,
    /// The schedule of all shards together.
    pub segments: Vec<RateSegment>,
    /// Common interval origin of all shards.
    pub origin_ns: u64,
    /// Scheduled end of the run.
    pub end_ns: u64,
    /// Response measurement.
    pub mode: Mode,
    /// Chunks per response.
    pub chunks: u32,
    /// The configured request timeout.
    pub timeout_ns: u64,
    /// Bounds of the latency histograms.
    pub bounds: Bounds,
    /// The limits of a ramp.
    pub limits: Option<RampLimits>,
}

/// What a shard is told of the ramp.
pub open spec fn is_ramp_spec(spec: RampSpec, segments: Seq<RateSegment>, limits: RampLimits) -> bool {
    &&& spec.steps@ == ramp::evaluated(segments)
    &&& spec.judge_delay_ns == limits.judge_delay_ns
    &&& spec.saturation_lag_ns == limits.saturation_lag_ns
    &&& spec.stop_p99_ns == limits.stop_p99_ns
}

impl FixedPhase {
    /// What shard `index` runs with. A ramp has its own request timeout; a
    /// fixed rate keeps the configured one.
    pub fn spec(&self, index: usize) -> (r: (ShardConfig, FixedArrivals))
        requires
            index < self.shards,
        ensures
            r.0.index == index,
            r.0.mode == self.mode,
            r.0.origin_ns == self.origin_ns,
            r.0.end_ns == self.end_ns,
            r.0.bounds == self.bounds,
            r.0.request_timeout_ns == match self.limits {
                Some(limits) => limits.request_timeout_ns,
                None => self.timeout_ns,
            },
            match (r.0.ramp, self.limits) {
                (Some(spec), Some(limits)) => is_ramp_spec(spec, self.segments@, limits),
                (None, None) => true,
                _ => false,
            },
            r.1.wf(),
            r.1.at() == (0usize, 0u64, 0u64),
            r.1.fixed() == (self.segments@, index as u64, self.shards as u64, self.chunks),
    {
        let ramp = match self.limits {
            None => None,
            Some(limits) => Some(
                RampSpec {
                    steps: evaluated_steps(self.segments.as_slice()),
                    judge_delay_ns: limits.judge_delay_ns,
                    saturation_lag_ns: limits.saturation_lag_ns,
                    stop_p99_ns: limits.stop_p99_ns,
                },
            ),
        };
        let request_timeout_ns: u64 = match self.limits {
            Some(limits) => limits.request_timeout_ns,
            None => self.timeout_ns,
        };
        let mut segments: Vec<RateSegment> = Vec::new();
        let mut i: usize = 0;
        while i < self.segments.len()
            invariant
                i <= self.segments@.len(),
                segments@ == self.segments@.take(i as int),
            decreases self.segments@.len() - i,
        {
            segments.push(self.segments[i]);
            i += 1;
            assert(segments@ =~= self.segments@.take(i as int));
        }
        assert(segments@ =~= self.segments@);
        (
            ShardConfig {
                index,
                mode: self.mode,
                origin_ns: self.origin_ns,
                end_ns: self.end_ns,
                request_timeout_ns,
                bounds: self.bounds,
                ramp,
            },
            FixedArrivals::new(segments, index, self.shards, self.chunks),
        )
    }
}

/// A phase of concurrent streams.
#[derive(Debug, Clone, Copy)]
pub struct StreamPhase {
    /// Number of shards.
    pub shards: usize,
    /// Streams of all shards together.
    pub concurrency: u32,
    /// Shape of the streams.
    pub plan: StreamPlan,
    /// Common interval origin of all shards.
    pub origin_ns: u64,
    /// Seconds of warmup and measurement together.
    pub total_s: u64,
    /// The configured request timeout.
    pub timeout_ns: u64,
    /// Bounds of the latency histograms.
    pub bounds: Bounds,
}

/// What a shard of streams runs with.
#[derive(Debug)]
pub struct StreamShard {
    /// The shard itself.
    pub config: ShardConfig,
    /// Its arrivals.
    pub arrivals: StreamArrivals,
    /// The load it offers.
    pub planned: PlannedLoad,
}

impl StreamPhase {
    /// Every interval of the run can be told apart.
    pub open spec fn wf(self) -> bool {
        &&& 0 < self.shards <= u32::MAX
        &&& self.origin_ns + PREBUILD_SPREAD_NS <= u64::MAX
        &&& self.total_s <= usize::MAX
        &&& self.origin_ns + self.total_s * SEC_NS <= u64::MAX
        &&& self.plan.interval_us * 1_000 <= u64::MAX
    }

    /// When the run ends.
    pub fn end_ns(&self) -> (r: u64)
        requires
            self.wf(),
        ensures
            r == self.origin_ns + self.total_s * SEC_NS,
    {
        self.origin_ns + secs_ns(self.total_s)
    }

    /// What shard `index` runs with: its share of the streams, the first of
    /// which after the prebuilt ones arrives `first_interarrival_ns` in.
    pub fn spec(&self, index: usize, first_interarrival_ns: u64) -> (r: StreamShard)
        requires
            self.wf(),
            index < self.shards,
        ensures
            r.config.index == index,
            r.config.mode == (Mode::Stream {
                ttft_ns: self.plan.ttft_ns,
                interval_ns: (self.plan.interval_us * 1_000) as u64,
            }),
            r.config.origin_ns == self.origin_ns,
            r.config.end_ns == self.origin_ns + self.total_s * SEC_NS,
            r.config.request_timeout_ns == self.timeout_ns,
            r.config.bounds == self.bounds,
            r.config.ramp is None,
            r.arrivals.wf(),
            r.arrivals.plan == self.plan,
            r.arrivals.origin_ns == self.origin_ns,
            r.arrivals.end_ns == r.config.end_ns,
            r.arrivals.prebuilt == schedule::share_of(
                self.concurrency as int,
                self.shards as int,
                index as int,
            ),
            r.arrivals.prebuilt_next == 0,
            r.arrivals.poisson == (r.arrivals.prebuilt > 0),
            r.arrivals.next_poisson_ns == if r.arrivals.poisson {
                time::capped(self.origin_ns + first_interarrival_ns)
            } else {
                u64::MAX
            },
            r.planned.wf(),
            r.planned.origin_ns == self.origin_ns,
            r.planned.interval_ns == SEC_NS,
            r.planned.chunks@ == Seq::new(self.total_s as nat, |i: int| 0u64),
            r.planned.concurrency@ == Seq::new(self.total_s as nat, |i: int| (0u64, 0u64)),
            r.planned.ends@.len() == 0,
    {
        let end_ns: u64 = self.end_ns();
        StreamShard {
            config: ShardConfig {
                index,
                mode: Mode::Stream {
                    ttft_ns: self.plan.ttft_ns,
                    interval_ns: self.plan.interval_us * 1_000,
                },
                origin_ns: self.origin_ns,
                end_ns,
                request_timeout_ns: self.timeout_ns,
                bounds: self.bounds,
                ramp: None,
            },
            arrivals: StreamArrivals::new(
                self.plan,
                share(self.concurrency, self.shards, index),
                self.origin_ns,
                end_ns,
                first_interarrival_ns,
            ),
            planned: PlannedLoad::new(self.origin_ns, SEC_NS, self.total_s as usize),
        }
    }
}

/// What the main thread does while the shards run.
#[derive(Debug, Clone, Copy, PartialEq, Eq, Structural)]
pub struct PhaseWatch {
    /// When the last shard is to end.
    pub end_ns: u64,
    /// When the next status line is due.
    pub next_status_ns: u64,
    /// The shards were told to stop.
    pub stopping: bool,
}

/// What the main thread does next.
#[derive(Debug, Clone, Copy, PartialEq, Eq, Structural)]
pub struct Poll {
    /// Tell every shard to stop: one of them failed.
    pub stop_all: bool,
    /// How long to wait.
    pub wait_ns: u64,
}

/// The latest of the times, or `otherwise` when there is none.
pub open spec fn latest(times: Seq<u64>, otherwise: u64) -> u64
    decreases times.len(),
{
    if times.len() == 0 {
        otherwise
    } else if times.len() == 1 {
        times[0]
    } else {
        time::larger(latest(times.drop_last(), otherwise) as int, times.last() as int) as u64
    }
}

impl PhaseWatch {
    /// Watches shards that end at `ends`.
    pub fn new(origin_ns: u64, ends: &[u64]) -> (r: Self)
        requires
            origin_ns + SEC_NS <= u64::MAX,
        ensures
            r.end_ns == latest(ends@, origin_ns),
            r.next_status_ns == origin_ns + SEC_NS,
            !r.stopping,
    {
        let mut end_ns: u64 = origin_ns;
        let mut i: usize = 0;
        while i < ends.len()
            invariant
                i <= ends@.len(),
                end_ns == latest(ends@.take(i as int), origin_ns),
            decreases ends@.len() - i,
        {
            assert(ends@.take(i + 1).drop_last() =~= ends@.take(i as int));
            if i == 0 {
                end_ns = ends[i];
            } else {
                end_ns = later(end_ns, ends[i]);
            }
            i += 1;
        }
        assert(ends@.take(i as int) =~= ends@);
        PhaseWatch { end_ns, next_status_ns: origin_ns + SEC_NS, stopping: false }
    }

    /// A shard that ends well before the others failed: the rest are told to
    /// stop, once, so that its error surfaces now instead of after the full
    /// run.
    pub fn poll(&mut self, now_ns: u64, any_finished: bool) -> (r: Poll)
        requires
            now_ns + EARLY_END_NS <= u64::MAX,
        ensures
            r.stop_all == (!old(self).stopping && any_finished && now_ns + EARLY_END_NS < old(
                self,
            ).end_ns),
            r.wait_ns == time::smaller(
                time::larger(
                    time::floored(old(self).next_status_ns - now_ns) as int,
                    MIN_WAIT_NS as int,
                ),
                MAX_WAIT_NS as int,
            ),
            final(self).stopping == (old(self).stopping || r.stop_all),
            final(self).end_ns == old(self).end_ns,
            final(self).next_status_ns == old(self).next_status_ns,
    {
        let stop_all: bool = !self.stopping && any_finished && now_ns + EARLY_END_NS < self.end_ns;
        if stop_all {
            self.stopping = true;
        }
        let left: u64 = self.next_status_ns.saturating_sub(now_ns);
        let wait_ns: u64 = if left < MIN_WAIT_NS {
            MIN_WAIT_NS
        } else if left > MAX_WAIT_NS {
            MAX_WAIT_NS
        } else {
            left
        };
        Poll { stop_all, wait_ns }
    }

    /// Whether a status line is due; the next one then comes within a second.
    pub fn status_due(&mut self, now_ns: u64) -> (r: bool)
        requires
            now_ns + SEC_NS <= u64::MAX,
        ensures
            r == (now_ns >= old(self).next_status_ns),
            final(self).next_status_ns == if r {
                shard::next_multiple(old(self).next_status_ns, SEC_NS, now_ns)
            } else {
                old(self).next_status_ns as int
            },
            r ==> now_ns < final(self).next_status_ns <= now_ns + SEC_NS,
            final(self).end_ns == old(self).end_ns,
            final(self).stopping == old(self).stopping,
    {
        if now_ns < self.next_status_ns {
            return false;
        }
        proof {
            shard::law_the_next_multiple_is_just_ahead(self.next_status_ns, SEC_NS, now_ns);
        }
        self.next_status_ns = advance(self.next_status_ns, SEC_NS, now_ns);
        true
    }
}

/// What the live status line shows of the time since the last one.
#[derive(Debug, Clone, Copy, PartialEq, Eq, Structural)]
pub struct StatusLine {
    /// Time since the origin.
    pub elapsed_ns: u64,
    /// Time since the last line.
    pub since_ns: u64,
    /// Chunks since the last line.
    pub chunks: u64,
    /// Requests since the last line.
    pub requests: u64,
}

/// The live status.
#[derive(Debug, Clone, Copy, PartialEq, Eq, Structural)]
pub struct Status {
    /// The origin of the run.
    pub origin_ns: u64,
    /// When the last line was printed.
    pub last_ns: u64,
    /// Chunks by then.
    pub last_chunks: u64,
    /// Requests by then.
    pub last_requests: u64,
}

impl Status {
    /// Nothing printed yet.
    pub fn new(origin_ns: u64) -> (r: Self)
        ensures
            r == (Status { origin_ns, last_ns: origin_ns, last_chunks: 0, last_requests: 0 }),
    {
        Status { origin_ns, last_ns: origin_ns, last_chunks: 0, last_requests: 0 }
    }

    /// The line at `now_ns`, when so many chunks and requests were counted.
    pub fn line(&mut self, now_ns: u64, chunks: u64, requests: u64) -> (r: StatusLine)
        ensures
            r == (StatusLine {
                elapsed_ns: time::floored(now_ns - old(self).origin_ns),
                since_ns: time::floored(now_ns - old(self).last_ns),
                chunks: time::floored(chunks - old(self).last_chunks),
                requests: time::floored(requests - old(self).last_requests),
            }),
            *final(self) == (Status {
                origin_ns: old(self).origin_ns,
                last_ns: now_ns,
                last_chunks: chunks,
                last_requests: requests,
            }),
    {
        let line = StatusLine {
            elapsed_ns: now_ns.saturating_sub(self.origin_ns),
            since_ns: now_ns.saturating_sub(self.last_ns),
            chunks: chunks.saturating_sub(self.last_chunks),
            requests: requests.saturating_sub(self.last_requests),
        };
        self.last_ns = now_ns;
        self.last_chunks = chunks;
        self.last_requests = requests;
        line
    }
}

/// The outputs of the shards of a phase, added up.
#[derive(Debug)]
pub struct PhaseTotals {
    /// Transport counters.
    pub counters: Counters,
    /// Clock steps detected.
    pub clock_steps: u64,
    /// Deadline misses, fresh connections and request slip per interval.
    pub diagnostics: Intervals,
    /// When the last shard stopped.
    pub end_ns: u64,
}

impl PhaseTotals {
    /// The diagnostics can be read.
    pub open spec fn wf(self) -> bool {
        self.diagnostics.wf()
    }

    /// The output can be added.
    pub open spec fn can_add(self, output: ShardOutput, clock_steps: u64) -> bool {
        &&& self.counters.can_add(output.counters)
        &&& self.clock_steps + clock_steps <= u64::MAX
        &&& output.diagnostics.wf()
        &&& self.diagnostics.bounds == output.diagnostics.bounds
        &&& self.diagnostics.from(0).plus(output.diagnostics.from(0)).fits(0)
    }

    /// No shard has ended yet.
    pub fn new(origin_ns: u64, bounds: Bounds) -> (r: Self)
        requires
            bounds.valid(),
        ensures
            r.wf(),
            r.counters == Counters::zero(),
            r.clock_steps == 0,
            r.diagnostics.entries@.len() == 0,
            r.diagnostics.bounds == bounds,
            r.end_ns == origin_ns,
    {
        PhaseTotals {
            counters: Counters::default(),
            clock_steps: 0,
            diagnostics: Intervals::new(bounds),
            end_ns: origin_ns,
        }
    }

    /// Whether what a shard hands back can be added, with one more of every
    /// count of the diagnostics to spare.
    pub fn has_room_for(&self, output: &ShardOutput, clock_steps: u64) -> (r: bool)
        requires
            self.wf(),
            output.diagnostics.wf(),
        ensures
            r == {
                &&& self.counters.can_add(output.counters)
                &&& self.clock_steps + clock_steps <= u64::MAX
                &&& self.diagnostics.bounds == output.diagnostics.bounds
                &&& self.diagnostics.from(0).plus(output.diagnostics.from(0)).fits(1)
            },
            r ==> self.can_add(*output, clock_steps),
    {
        self.counters.fits_with(&output.counters) && self.clock_steps.checked_add(
            clock_steps,
        ).is_some() && self.diagnostics.has_room_for(&output.diagnostics)
    }

    /// Adds what a shard hands back at its end.
    pub fn add(&mut self, output: &ShardOutput, clock_steps: u64)
        requires
            old(self).wf(),
            old(self).can_add(*output, clock_steps),
        ensures
            final(self).wf(),
            final(self).counters == old(self).counters.plus(output.counters),
            final(self).clock_steps == old(self).clock_steps + clock_steps,
            final(self).diagnostics.bounds == old(self).diagnostics.bounds,
            forall|w: u64| #[trigger]
                final(self).diagnostics.from(w) == old(self).diagnostics.from(w).plus(
                    output.diagnostics.from(w),
                ),
            forall|i: u64| #[trigger]
                final(self).diagnostics.at(i) == old(self).diagnostics.at(i).plus(
                    output.diagnostics.at(i),
                ),
            final(self).end_ns == time::larger(old(self).end_ns as int, output.end_ns as int),
    {
        self.counters.add(&output.counters);
        self.clock_steps = self.clock_steps + clock_steps;
        merge_into(&mut self.diagnostics, &output.diagnostics);
        self.end_ns = later(self.end_ns, output.end_ns);
    }
}

/// The counters of two shards add up in either order.
pub proof fn law_counters_add_in_any_order(a: Counters, b: Counters, c: Counters)
    requires
        a.can_add(b),
        b.can_add(c),
        a.plus(b).can_add(c),
    ensures
        a.plus(b) == b.plus(a),
        b.can_add(a),
        a.can_add(b.plus(c)),
        a.plus(b).plus(c) == a.plus(b.plus(c)),
{
}

/// A fixed-rate run lasts as long as its warmup and its measurement; a ramp as
/// long as its warmup and all its steps, and then until the last step can be
/// judged.
pub proof fn law_a_run_lasts_as_long_as_was_asked(
    mode: RateMode,
    origin_ns: u64,
    warmup_s: u64,
    limits: RampLimits,
)
    requires
        warmup_s <= 1_000_000_000,
        mode matches RateMode::Fixed { measure_s, .. } ==> measure_s <= 1_000_000_000,
        mode matches RateMode::Ramp { step_s, .. } ==> step_s <= 1_000_000_000,
    ensures
        ({
            let length = run_end(mode, origin_ns, warmup_s, limits) - origin_ns;
            match mode {
                RateMode::Fixed { measure_s, .. } => length == (warmup_s + measure_s)
                    * 1_000_000_000,
                RateMode::Ramp { rates, step_s, .. } => length == warmup_s * 1_000_000_000
                    + rates@.len() * (step_s * 1_000_000_000) + limits.judge_delay_ns,
            }
        }),
{
}

/// Every shard has a CPU of its own where there are as many as shards, and
/// all of them otherwise.
pub proof fn law_shards_have_their_own_cpu_where_there_are_enough(
    cpus: Seq<usize>,
    shards: nat,
    index: int,
)
    requires
        0 <= index < shards,
    ensures
        cpus.len() == shards ==> cpus_of(Some(cpus), shards, index) == Some(seq![cpus[index]]),
        cpus.len() != shards ==> cpus_of(Some(cpus), shards, index) == Some(cpus),
        cpus_of(None, shards, index) is None,
{
}

/// The latest of several times is one of them, and none is later.
pub proof fn law_the_latest_time_is_the_last(times: Seq<u64>, otherwise: u64)
    ensures
        times.len() > 0 ==> times.contains(latest(times, otherwise)) && forall|i: int|
            0 <= i < times.len() ==> #[trigger] times[i] <= latest(times, otherwise),
        times.len() == 0 ==> latest(times, otherwise) == otherwise,
    decreases times.len(),
{
    if times.len() == 1 {
        assert(times[0] == latest(times, otherwise));
    } else if times.len() > 1 {
        let rest = times.drop_last();
        law_the_latest_time_is_the_last(rest, otherwise);
        let k = choose|k: int| 0 <= k < rest.len() && rest[k] == latest(rest, otherwise);
        assert(times[k] == rest[k]);
        assert(times[times.len() - 1] == times.last());
        assert forall|i: int| 0 <= i < times.len() implies #[trigger] times[i] <= latest(
            times,
            otherwise,
        ) by {
            if i < rest.len() {
                assert(rest[i] == times[i]);
            }
        }
    }
}

/// The counters of two shards together are the sums of each.
pub proof fn law_counters_add_up_one_by_one(a: Counters, b: Counters)
    requires
        a.can_add(b),
    ensures
        ({
            let both = a.plus(b);
            &&& both.requests_scheduled == a.requests_scheduled + b.requests_scheduled
            &&& both.connections_opened == a.connections_opened + b.connections_opened
            &&& both.reused_sends == a.reused_sends + b.reused_sends
            &&& both.stale_retries == a.stale_retries + b.stale_retries
            &&& both.idle_closed == a.idle_closed + b.idle_closed
            &&& both.rx_batches == a.rx_batches + b.rx_batches
            &&& both.rx_batches_without_timestamp == a.rx_batches_without_timestamp
                + b.rx_batches_without_timestamp
            &&& both.open_at_end == a.open_at_end + b.open_at_end
            &&& both.censored_requests == a.censored_requests + b.censored_requests
            &&& both.censored_samples == a.censored_samples + b.censored_samples
        }),
{
}

} // verus!
