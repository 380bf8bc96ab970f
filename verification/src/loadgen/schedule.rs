//! Open-loop schedules: when each request is due, independent of how the
//! server responds.
//!
//! - [`StreamArrivals`]: the target concurrency is pre-populated at the
//!   start with streams whose durations follow the residual-life
//!   distribution, their connections spread over the first second; streams
//!   also arrive as a Poisson process from the start on. The draws come
//!   from the caller.
//! - [`FixedArrivals`]: an evenly spaced grid at a fixed rate, or a sequence
//!   of rate segments for a ramp. The offsets of the grid points come from
//!   the caller.
//!
//! [`PlannedLoad`](crate::loadgen::planned::PlannedLoad) tracks what the schedule implies (open streams, chunks
//! due per interval) so the validity check can compare the achieved load
//! with the offered one.

use crate::time;
use vstd::prelude::*;

verus! {

/// Nanoseconds per second.
pub const SEC_NS: u64 = 1_000_000_000;

/// Window over which the pre-built streams are started.
pub const PREBUILD_SPREAD_NS: u64 = SEC_NS;

/// One scheduled request.
#[derive(Debug, Clone, Copy, PartialEq, Eq, Structural)]
pub struct Arrival {
    /// Planned start, monotonic nanoseconds.
    pub sched_ns: u64,
    /// Chunks requested (streaming responses).
    pub chunks: u32,
    /// Planned time from start to the last chunk.
    pub lifetime_ns: u64,
    /// Ramp step (0 outside ramp steps).
    pub step: u32,
}

/// Timing of the streams of a run.
#[derive(Debug, Clone, Copy, PartialEq, Eq, Structural)]
pub struct StreamPlan {
    /// Chunk interval requested from the mock, microseconds.
    pub interval_us: u64,
    /// Mock delay before the first chunk, nanoseconds.
    pub ttft_ns: u64,
}

impl StreamPlan {
    /// Planned time from a request's start to its last chunk.
    pub open spec fn lifetime(self, chunks: u32) -> int {
        self.ttft_ns + (if chunks == 0 {
            0int
        } else {
            chunks - 1
        }) * (self.interval_us * 1_000)
    }

    /// Planned time from a request's start to its last chunk.
    pub fn lifetime_ns(&self, chunks: u32) -> (r: u64)
        requires
            self.lifetime(chunks) <= u64::MAX,
        ensures
            r == self.lifetime(chunks),
    {
        let intervals: u64 = if chunks == 0 {
            0
        } else {
            chunks as u64 - 1
        };
        if intervals == 0 {
            assert(0 * (self.interval_us * 1_000) == 0) by (nonlinear_arith);
            return self.ttft_ns;
        }
        proof {
            let step = self.interval_us * 1_000;
            assert(intervals * step >= step) by (nonlinear_arith)
                requires
                    intervals >= 1,
                    step >= 0,
            ;
            assert(intervals * step == intervals * (self.interval_us * 1_000));
        }
        self.ttft_ns + intervals * (self.interval_us * 1_000)
    }

    /// The arrival of a stream of `chunks` chunks.
    pub fn arrival(&self, sched_ns: u64, chunks: u32) -> (r: Arrival)
        requires
            self.lifetime(chunks) <= u64::MAX,
        ensures
            r == (Arrival {
                sched_ns,
                chunks,
                lifetime_ns: self.lifetime(chunks) as u64,
                step: 0,
            }),
    {
        Arrival { sched_ns, chunks, lifetime_ns: self.lifetime_ns(chunks), step: 0 }
    }
}

/// Share `index` of `total` split into `parts` near-equal shares.
pub open spec fn share_of(total: int, parts: int, index: int) -> int {
    total / parts + (if index < total % parts {
        1int
    } else {
        0
    })
}

/// The first `n` shares together.
pub open spec fn shares_sum(total: int, parts: int, n: int) -> int
    decreases n,
{
    if n <= 0 {
        0
    } else {
        shares_sum(total, parts, n - 1) + share_of(total, parts, n - 1)
    }
}

/// Splits `total` into `parts` near-equal shares; share `index`.
pub fn share(total: u32, parts: usize, index: usize) -> (r: u32)
    requires
        0 < parts <= u32::MAX,
        index <= u32::MAX,
    ensures
        r == share_of(total as int, parts as int, index as int),
{
    let parts: u32 = parts as u32;
    let index: u32 = index as u32;
    proof {
        assert(total / parts <= total) by (nonlinear_arith)
            requires
                parts >= 1,
        ;
        if index < total % parts {
            assert(total / parts < total) by (nonlinear_arith)
                requires
                    parts >= 1,
                    total % parts > 0,
            ;
        }
    }
    if index < total % parts {
        total / parts + 1
    } else {
        total / parts
    }
}

proof fn lemma_shares_sum(total: int, parts: int, n: int)
    requires
        total >= 0,
        parts > 0,
        0 <= n <= parts,
    ensures
        shares_sum(total, parts, n) == n * (total / parts) + time::smaller(n, total % parts),
    decreases n,
{
    if n > 0 {
        lemma_shares_sum(total, parts, n - 1);
        assert(n * (total / parts) == (n - 1) * (total / parts) + total / parts)
            by (nonlinear_arith);
    } else {
        assert(0 * (total / parts) == 0) by (nonlinear_arith);
        assert(total % parts >= 0) by (nonlinear_arith)
            requires
                parts > 0,
        ;
    }
}

/// All shares together are the total.
pub proof fn law_shares_cover_the_total(total: int, parts: int)
    requires
        total >= 0,
        parts > 0,
    ensures
        shares_sum(total, parts, parts) == total,
{
    lemma_shares_sum(total, parts, parts);
    vstd::arithmetic::div_mod::lemma_fundamental_div_mod(total, parts);
    assert(total % parts < parts) by (nonlinear_arith)
        requires
            parts > 0,
    ;
}

/// No two shares differ by more than one.
pub proof fn law_shares_are_near_equal(total: int, parts: int, i: int, j: int)
    ensures
        -1 <= share_of(total, parts, i) - share_of(total, parts, j) <= 1,
{
}

/// What comes next in a schedule of streams.
#[derive(Debug, Clone, Copy, PartialEq, Eq, Structural)]
pub enum Draw {
    /// A pre-built stream, connected `elapsed_ns` after the origin: the
    /// residual life is to be drawn.
    Prebuilt {
        /// When it is connected.
        at_ns: u64,
        /// Its start offset.
        elapsed_ns: u64,
    },
    /// A stream of the Poisson process: the time to the one after it and
    /// its duration are to be drawn.
    Poisson {
        /// When it arrives.
        arrives_ns: u64,
    },
    /// Nothing.
    Nothing,
}

/// The streams of one shard: those pre-built and those that arrive.
#[derive(Debug, Clone, Copy, PartialEq, Eq, Structural)]
pub struct StreamArrivals {
    /// Timing of the streams.
    pub plan: StreamPlan,
    /// Whether streams arrive: the shard holds any.
    pub poisson: bool,
    /// Start of the schedule.
    pub origin_ns: u64,
    /// End of the schedule.
    pub end_ns: u64,
    /// Pre-built streams.
    pub prebuilt: u32,
    /// Pre-built streams drawn so far.
    pub prebuilt_next: u32,
    /// When the next stream of the Poisson process arrives.
    pub next_poisson_ns: u64,
}

impl StreamArrivals {
    /// The spread of the pre-built streams ends at a time that can be told.
    pub open spec fn wf(self) -> bool {
        &&& self.origin_ns + PREBUILD_SPREAD_NS <= u64::MAX
        &&& self.prebuilt_next <= self.prebuilt
    }

    /// When the next pre-built stream is connected.
    pub open spec fn prebuilt_at(self) -> int {
        self.origin_ns + PREBUILD_SPREAD_NS * self.prebuilt_next / self.prebuilt as int
    }

    /// What comes next.
    pub open spec fn next(self) -> Draw {
        if self.prebuilt_next < self.prebuilt && self.prebuilt_at() <= self.next_poisson_ns {
            Draw::Prebuilt {
                at_ns: self.prebuilt_at() as u64,
                elapsed_ns: (self.prebuilt_at() - self.origin_ns) as u64,
            }
        } else if self.poisson {
            Draw::Poisson { arrives_ns: self.next_poisson_ns }
        } else {
            Draw::Nothing
        }
    }

    /// No arrival that is still to come is due before this.
    pub open spec fn not_before(self) -> int {
        match self.next() {
            Draw::Prebuilt { at_ns, .. } => at_ns as int,
            Draw::Poisson { arrives_ns } => arrives_ns as int,
            Draw::Nothing => u64::MAX as int,
        }
    }

    /// Arrivals for a shard holding `concurrency` streams, between
    /// `origin_ns` and `end_ns`; the first stream of the Poisson process
    /// comes `first_interarrival_ns` after the origin.
    pub fn new(
        plan: StreamPlan,
        concurrency: u32,
        origin_ns: u64,
        end_ns: u64,
        first_interarrival_ns: u64,
    ) -> (r: Self)
        requires
            origin_ns + PREBUILD_SPREAD_NS <= u64::MAX,
        ensures
            r.wf(),
            r == (StreamArrivals {
                plan,
                poisson: concurrency > 0,
                origin_ns,
                end_ns,
                prebuilt: concurrency,
                prebuilt_next: 0,
                next_poisson_ns: if concurrency > 0 {
                    time::capped(origin_ns + first_interarrival_ns)
                } else {
                    u64::MAX
                },
            }),
    {
        StreamArrivals {
            plan,
            poisson: concurrency > 0,
            origin_ns,
            end_ns,
            prebuilt: concurrency,
            prebuilt_next: 0,
            next_poisson_ns: if concurrency > 0 {
                origin_ns.saturating_add(first_interarrival_ns)
            } else {
                u64::MAX
            },
        }
    }

    proof fn lemma_spread(next: u32, prebuilt: u32)
        requires
            next < prebuilt,
        ensures
            0 <= PREBUILD_SPREAD_NS * next / prebuilt as int <= PREBUILD_SPREAD_NS,
            PREBUILD_SPREAD_NS * next / prebuilt as int <= PREBUILD_SPREAD_NS * (next + 1)
                / prebuilt as int,
            PREBUILD_SPREAD_NS * next <= u64::MAX,
    {
        let a = PREBUILD_SPREAD_NS * next;
        let b = PREBUILD_SPREAD_NS * (next + 1);
        let p = prebuilt as int;
        assert(a <= u64::MAX && a <= b) by (nonlinear_arith)
            requires
                a == PREBUILD_SPREAD_NS * next,
                b == PREBUILD_SPREAD_NS * (next + 1),
                PREBUILD_SPREAD_NS == 1_000_000_000,
        ;
        assert(a <= PREBUILD_SPREAD_NS * p) by (nonlinear_arith)
            requires
                a == PREBUILD_SPREAD_NS * next,
                next < p,
        ;
        assert(0 <= a / p) by (nonlinear_arith)
            requires
                a >= 0,
                p > 0,
        ;
        assert(a / p <= PREBUILD_SPREAD_NS) by (nonlinear_arith)
            requires
                a <= PREBUILD_SPREAD_NS * p,
                p > 0,
        ;
        vstd::arithmetic::div_mod::lemma_div_is_ordered(a, b, p);
    }

    /// When the next pre-built stream is connected, if one is left.
    pub fn next_prebuilt_ns(&self) -> (r: Option<u64>)
        requires
            self.wf(),
        ensures
            r == if self.prebuilt_next < self.prebuilt {
                Some(self.prebuilt_at() as u64)
            } else {
                None
            },
            r matches Some(t) ==> t == self.prebuilt_at() && self.origin_ns <= t,
    {
        if self.prebuilt_next < self.prebuilt {
            proof {
                Self::lemma_spread(self.prebuilt_next, self.prebuilt);
            }
            Some(
                self.origin_ns + PREBUILD_SPREAD_NS * (self.prebuilt_next as u64) / (
                self.prebuilt as u64),
            )
        } else {
            None
        }
    }

    /// What is to be drawn next.
    pub fn next_draw(&self) -> (r: Draw)
        requires
            self.wf(),
        ensures
            r == self.next(),
    {
        match self.next_prebuilt_ns() {
            Some(t) => if t <= self.next_poisson_ns {
                return Draw::Prebuilt { at_ns: t, elapsed_ns: t - self.origin_ns };
            },
            None => {},
        }
        if self.poisson {
            Draw::Poisson { arrives_ns: self.next_poisson_ns }
        } else {
            Draw::Nothing
        }
    }

    /// The arrival, unless it is past the end.
    pub open spec fn in_time(self, at_ns: u64, chunks: u32) -> Option<Arrival> {
        if at_ns < self.end_ns {
            Some(
                Arrival {
                    sched_ns: at_ns,
                    chunks,
                    lifetime_ns: self.plan.lifetime(chunks) as u64,
                    step: 0,
                },
            )
        } else {
            None
        }
    }

    /// Takes the pre-built stream that comes next. `chunks` is its length,
    /// or `None` when its residual life ends within its start offset: it is
    /// then skipped, and the next draw follows. `None` once past the end.
    pub fn take_prebuilt(&mut self, chunks: Option<u32>) -> (r: Result<Option<Arrival>, Skipped>)
        requires
            old(self).wf(),
            old(self).next() is Prebuilt,
            chunks matches Some(n) ==> old(self).plan.lifetime(n) <= u64::MAX,
        ensures
            final(self).wf(),
            *final(self) == (StreamArrivals {
                prebuilt_next: (old(self).prebuilt_next + 1) as u32,
                ..*old(self)
            }),
            r == match chunks {
                None => Err::<Option<Arrival>, Skipped>(Skipped),
                Some(n) => Ok::<Option<Arrival>, Skipped>(
                    old(self).in_time(old(self).prebuilt_at() as u64, n),
                ),
            },
    {
        let at_ns: u64 = match self.next_prebuilt_ns() {
            Some(t) => t,
            None => 0,
        };
        self.prebuilt_next += 1;
        match chunks {
            None => Err(Skipped),
            Some(n) => Ok(
                if at_ns < self.end_ns {
                    Some(self.plan.arrival(at_ns, n))
                } else {
                    None
                },
            ),
        }
    }

    /// Takes the stream of the Poisson process that comes next, of `chunks`
    /// chunks; the one after it comes `interarrival_ns` later. `None` once
    /// past the end.
    pub fn take_poisson(&mut self, interarrival_ns: u64, chunks: u32) -> (r: Option<Arrival>)
        requires
            old(self).wf(),
            old(self).next() is Poisson,
            old(self).plan.lifetime(chunks) <= u64::MAX,
        ensures
            final(self).wf(),
            *final(self) == (StreamArrivals {
                next_poisson_ns: time::capped(old(self).next_poisson_ns + interarrival_ns),
                ..*old(self)
            }),
            r == old(self).in_time(old(self).next_poisson_ns, chunks),
    {
        let at_ns: u64 = self.next_poisson_ns;
        self.next_poisson_ns = at_ns.saturating_add(interarrival_ns);
        if at_ns < self.end_ns {
            Some(self.plan.arrival(at_ns, chunks))
        } else {
            None
        }
    }
}

/// A pre-built stream that is already over.
#[derive(Debug, Clone, Copy, PartialEq, Eq, Structural)]
pub struct Skipped;

/// Streams come in time order: after the pre-built stream that comes next,
/// nothing is due before it.
pub proof fn law_prebuilt_streams_come_in_time_order(before: StreamArrivals, after: StreamArrivals)
    requires
        before.wf(),
        before.next() is Prebuilt,
        after == (StreamArrivals { prebuilt_next: (before.prebuilt_next + 1) as u32, ..before }),
    ensures
        before.not_before() <= after.not_before(),
{
    StreamArrivals::lemma_spread(before.prebuilt_next, before.prebuilt);
    if after.prebuilt_next < after.prebuilt {
        StreamArrivals::lemma_spread(after.prebuilt_next, after.prebuilt);
    }
}

/// Streams come in time order: after the stream of the Poisson process that
/// comes next, nothing is due before it.
pub proof fn law_poisson_streams_come_in_time_order(
    before: StreamArrivals,
    interarrival_ns: u64,
    after: StreamArrivals,
)
    requires
        before.wf(),
        before.next() is Poisson,
        after == (StreamArrivals {
            next_poisson_ns: time::capped(before.next_poisson_ns + interarrival_ns),
            ..before
        }),
    ensures
        before.not_before() <= after.not_before(),
{
    if before.prebuilt_next < before.prebuilt {
        StreamArrivals::lemma_spread(before.prebuilt_next, before.prebuilt);
    }
}

/// Every stream, pre-built or not, starts between the origin and the end.
pub proof fn law_streams_start_within_the_run(state: StreamArrivals, chunks: u32)
    requires
        state.wf(),
        state.next_poisson_ns >= state.origin_ns,
    ensures
        state.next() matches Draw::Prebuilt { at_ns, .. } ==> state.origin_ns <= at_ns,
        state.next() matches Draw::Poisson { arrives_ns } ==> state.origin_ns <= arrives_ns,
        state.in_time(state.next_poisson_ns, chunks) matches Some(a) ==> state.origin_ns
            <= a.sched_ns < state.end_ns,
        state.in_time(state.prebuilt_at() as u64, chunks) matches Some(a) ==> a.sched_ns
            < state.end_ns,
{
    if state.prebuilt_next < state.prebuilt {
        StreamArrivals::lemma_spread(state.prebuilt_next, state.prebuilt);
    }
}

/// A stretch of the schedule with a constant rate.
#[derive(Debug, Clone, Copy, PartialEq, Eq, Structural)]
pub struct RateSegment {
    /// First instant of the segment.
    pub start_ns: u64,
    /// End (exclusive).
    pub end_ns: u64,
    /// Requests per second (all shards together), as the bits of the
    /// floating-point number.
    pub rate: u64,
    /// Ramp step number; 0 for the warmup or a fixed-rate run.
    pub step: u32,
}

/// The segments of a ramp: a warmup at the start rate, if any, then a step
/// for each of the rates, one after the other.
pub open spec fn ramp_plan(
    origin_ns: int,
    warmup_ns: int,
    start_rate: u64,
    rates: Seq<u64>,
    step_ns: int,
) -> Seq<RateSegment> {
    let steps = Seq::new(
        rates.len(),
        |i: int|
            RateSegment {
                start_ns: (origin_ns + warmup_ns + i * step_ns) as u64,
                end_ns: (origin_ns + warmup_ns + (i + 1) * step_ns) as u64,
                rate: rates[i],
                step: (i + 1) as u32,
            },
    );
    if warmup_ns > 0 {
        seq![
            RateSegment {
                start_ns: origin_ns as u64,
                end_ns: (origin_ns + warmup_ns) as u64,
                rate: start_rate,
                step: 0,
            },
        ] + steps
    } else {
        steps
    }
}

/// Builds a ramp: a warmup at `start_rate`, then one step of `step_ns` for
/// each of `rates`.
pub fn ramp_segments(
    origin_ns: u64,
    warmup_ns: u64,
    start_rate: u64,
    rates: &[u64],
    step_ns: u64,
) -> (r: Vec<RateSegment>)
    requires
        rates@.len() <= u32::MAX,
        origin_ns + warmup_ns + rates@.len() * step_ns <= u64::MAX,
    ensures
        r@ == ramp_plan(
            origin_ns as int,
            warmup_ns as int,
            start_rate,
            rates@,
            step_ns as int,
        ),
{
    let mut segments: Vec<RateSegment> = Vec::new();
    assert(rates@.len() * step_ns >= 0) by (nonlinear_arith);
    if warmup_ns > 0 {
        segments.push(
            RateSegment {
                start_ns: origin_ns,
                end_ns: origin_ns + warmup_ns,
                rate: start_rate,
                step: 0,
            },
        );
    }
    let ghost plan = ramp_plan(
        origin_ns as int,
        warmup_ns as int,
        start_rate,
        rates@,
        step_ns as int,
    );
    let ghost lead: int = if warmup_ns > 0 {
        1
    } else {
        0
    };
    let mut start: u64 = origin_ns + warmup_ns;
    let mut i: usize = 0;
    assert(0 * step_ns == 0) by (nonlinear_arith);
    while i < rates.len()
        invariant
            i <= rates@.len() <= u32::MAX,
            origin_ns + warmup_ns + rates@.len() * step_ns <= u64::MAX,
            start == origin_ns + warmup_ns + i * step_ns,
            plan == ramp_plan(
                origin_ns as int,
                warmup_ns as int,
                start_rate,
                rates@,
                step_ns as int,
            ),
            lead == if warmup_ns > 0 {
                1int
            } else {
                0
            },
            segments@ == plan.take(lead + i),
        decreases rates@.len() - i,
    {
        assert((i + 1) * step_ns == i * step_ns + step_ns) by (nonlinear_arith);
        assert((i + 1) * step_ns <= rates@.len() * step_ns) by (nonlinear_arith)
            requires
                i + 1 <= rates@.len(),
        ;
        segments.push(
            RateSegment {
                start_ns: start,
                end_ns: start + step_ns,
                rate: rates[i],
                step: (i + 1) as u32,
            },
        );
        start = start + step_ns;
        i += 1;
        assert(segments@ =~= plan.take(lead + i));
    }
    assert(plan.take(lead + i) =~= plan);
    segments
}

/// The segments of a ramp follow each other without a gap, and the steps are
/// numbered from 1 on.
pub proof fn law_ramp_segments_are_contiguous(
    origin_ns: int,
    warmup_ns: int,
    start_rate: u64,
    rates: Seq<u64>,
    step_ns: int,
    i: int,
)
    requires
        0 <= origin_ns,
        0 <= warmup_ns,
        0 <= step_ns,
        rates.len() <= u32::MAX,
        origin_ns + warmup_ns + rates.len() * step_ns <= u64::MAX,
        0 <= i < ramp_plan(origin_ns, warmup_ns, start_rate, rates, step_ns).len(),
    ensures
        ({
            let plan = ramp_plan(origin_ns, warmup_ns, start_rate, rates, step_ns);
            &&& i == 0 ==> plan[i].start_ns == origin_ns
            &&& i > 0 ==> plan[i].start_ns == plan[i - 1].end_ns
            &&& plan[i].start_ns <= plan[i].end_ns
            &&& i == plan.len() - 1 ==> plan[i].end_ns == origin_ns + warmup_ns + rates.len()
                * step_ns
            &&& i > 0 ==> plan[i].step == plan[i - 1].step + 1
            &&& plan[i].step == if warmup_ns > 0 {
                i
            } else {
                i + 1
            }
        }),
{
    let plan = ramp_plan(origin_ns, warmup_ns, start_rate, rates, step_ns);
    let lead: int = if warmup_ns > 0 {
        1
    } else {
        0
    };
    assert(0 * step_ns == 0) by (nonlinear_arith);
    assert(rates.len() * step_ns >= 0) by (nonlinear_arith)
        requires
            step_ns >= 0,
    ;
    let k = i - lead;
    if k >= 0 {
        assert(0 <= k * step_ns && k * step_ns <= (k + 1) * step_ns && (k + 1) * step_ns
            <= rates.len() * step_ns) by (nonlinear_arith)
            requires
                step_ns >= 0,
                0 <= k,
                k + 1 <= rates.len(),
        ;
        if k > 0 {
            assert(plan[i - 1].end_ns == origin_ns + warmup_ns + k * step_ns);
        }
    }
}

/// What became of a grid point.
#[derive(Debug, Clone, Copy, PartialEq, Eq, Structural)]
pub enum Point {
    /// The point is past its segment: the next segment begins.
    NextSegment,
    /// Another shard takes it.
    Other,
    /// This shard sends a request at it.
    Mine(Arrival),
}

/// Evenly spaced arrivals over rate segments. The grid is global; shard `i`
/// of `n` takes every `n`-th point starting at the `i`-th, so all shards
/// together send exactly at the segment rate.
#[derive(Debug)]
pub struct FixedArrivals {
    /// The segments in order.
    pub segments: Vec<RateSegment>,
    /// Current segment.
    pub segment: usize,
    /// Points of the segment so far.
    pub k: u64,
    /// Points of the grid so far.
    pub global: u64,
    /// This shard.
    pub shard: u64,
    /// Number of shards.
    pub shards: u64,
    /// Chunks every request asks for.
    pub chunks: u32,
}

/// Where a walk over the grid stands: segment, points of the segment and
/// points of the grid so far.
pub open spec fn grid_step(
    segments: Seq<RateSegment>,
    at: (usize, u64, u64),
    offset_ns: u64,
) -> (usize, u64, u64) {
    let seg = segments[at.0 as int];
    if time::capped(seg.start_ns + offset_ns) >= seg.end_ns {
        ((at.0 + 1) as usize, 0, at.2)
    } else {
        (at.0, (at.1 + 1) as u64, (at.2 + 1) as u64)
    }
}

/// Shard `shard` of `shards` takes point `index` of the grid.
pub open spec fn takes_point(shard: u64, shards: u64, index: u64) -> bool {
    index % shards == shard
}

/// What becomes of the point `offset_ns` into its segment, for a shard of a
/// walk over these segments that asks for so many chunks.
pub open spec fn point_at(
    fixed: (Seq<RateSegment>, u64, u64, u32),
    at: (usize, u64, u64),
    offset_ns: u64,
) -> Point {
    let seg = fixed.0[at.0 as int];
    let at_ns = time::capped(seg.start_ns + offset_ns);
    if at_ns >= seg.end_ns {
        Point::NextSegment
    } else if takes_point(fixed.1, fixed.2, at.2) {
        Point::Mine(
            Arrival { sched_ns: at_ns, chunks: fixed.3, lifetime_ns: 0, step: seg.step },
        )
    } else {
        Point::Other
    }
}

impl FixedArrivals {
    /// The shard is one of the shards.
    pub open spec fn wf(self) -> bool {
        &&& self.shard < self.shards
        &&& self.segment <= self.segments@.len()
    }

    /// Where the walk over the grid stands.
    pub open spec fn at(self) -> (usize, u64, u64) {
        (self.segment, self.k, self.global)
    }

    /// The shard and what it asks for.
    pub open spec fn fixed(self) -> (Seq<RateSegment>, u64, u64, u32) {
        (self.segments@, self.shard, self.shards, self.chunks)
    }

    /// Arrivals of shard `shard` of `shards`; every request asks for
    /// `chunks` chunks.
    pub fn new(segments: Vec<RateSegment>, shard: usize, shards: usize, chunks: u32) -> (r: Self)
        requires
            shard < shards,
        ensures
            r.wf(),
            r.at() == (0usize, 0u64, 0u64),
            r.fixed() == (segments@, shard as u64, shards as u64, chunks),
    {
        FixedArrivals {
            segments,
            segment: 0,
            k: 0,
            global: 0,
            shard: shard as u64,
            shards: shards as u64,
            chunks,
        }
    }

    /// The grid point to look at: its number within the segment and the rate
    /// of the segment. `None` after the last segment.
    pub fn next_point(&self) -> (r: Option<(u64, u64)>)
        requires
            self.wf(),
        ensures
            r == if self.segment < self.segments@.len() {
                Some((self.k, self.segments@[self.segment as int].rate))
            } else {
                None
            },
    {
        if self.segment < self.segments.len() {
            Some((self.k, self.segments[self.segment].rate))
        } else {
            None
        }
    }

    /// Walks over the grid point `offset_ns` into its segment.
    pub fn take(&mut self, offset_ns: u64) -> (r: Point)
        requires
            old(self).wf(),
            old(self).segment < old(self).segments@.len(),
            old(self).k < u64::MAX,
            old(self).global < u64::MAX,
        ensures
            final(self).wf(),
            final(self).fixed() == old(self).fixed(),
            final(self).at() == grid_step(old(self).segments@, old(self).at(), offset_ns),
            r == point_at(old(self).fixed(), old(self).at(), offset_ns),
    {
        let seg = self.segments[self.segment];
        let at_ns: u64 = seg.start_ns.saturating_add(offset_ns);
        if at_ns >= seg.end_ns {
            assert(self.segments@.len() == self.segments.len());
            self.segment += 1;
            self.k = 0;
            return Point::NextSegment;
        }
        self.k += 1;
        let index: u64 = self.global;
        self.global += 1;
        if index % self.shards == self.shard {
            Point::Mine(
                Arrival { sched_ns: at_ns, chunks: self.chunks, lifetime_ns: 0, step: seg.step },
            )
        } else {
            Point::Other
        }
    }
}

/// Every point of the grid is taken by exactly one shard.
pub proof fn law_shards_interleave(shards: u64, index: u64, other: u64)
    requires
        0 < shards,
        other < shards,
    ensures
        (index % shards) < shards,
        takes_point((index % shards) as u64, shards, index),
        takes_point(other, shards, index) ==> other == index % shards,
{
    assert(index % shards < shards) by (nonlinear_arith)
        requires
            shards > 0,
    ;
}

/// Points of the grid within a segment come in time order when their offsets
/// do.
pub proof fn law_grid_points_come_in_time_order(start_ns: u64, earlier: u64, later: u64)
    requires
        earlier <= later,
    ensures
        time::capped(start_ns + earlier) <= time::capped(start_ns + later),
{
}

/// Where a walk stands after `steps` points have been looked at; `offset`
/// gives the offset of a point of a segment from its number and the rate.
pub open spec fn walk(
    segments: Seq<RateSegment>,
    offset: spec_fn(u64, u64) -> u64,
    steps: nat,
) -> (usize, u64, u64)
    decreases steps,
{
    if steps == 0 {
        (0, 0, 0)
    } else {
        let at = walk(segments, offset, (steps - 1) as nat);
        if at.0 < segments.len() {
            grid_step(segments, at, offset(at.1, segments[at.0 as int].rate))
        } else {
            at
        }
    }
}

/// The requests that a shard sends on a walk of `steps` points, in order.
pub open spec fn sent(
    fixed: (Seq<RateSegment>, u64, u64, u32),
    offset: spec_fn(u64, u64) -> u64,
    steps: nat,
) -> Seq<Arrival>
    decreases steps,
{
    if steps == 0 {
        Seq::empty()
    } else {
        let before = sent(fixed, offset, (steps - 1) as nat);
        let at = walk(fixed.0, offset, (steps - 1) as nat);
        if at.0 < fixed.0.len() {
            match point_at(fixed, at, offset(at.1, fixed.0[at.0 as int].rate)) {
                Point::Mine(arrival) => before.push(arrival),
                _ => before,
            }
        } else {
            before
        }
    }
}

/// A request lies within a segment and carries its step.
pub open spec fn lies_in(arrival: Arrival, segment: RateSegment) -> bool {
    segment.start_ns <= arrival.sched_ns < segment.end_ns && arrival.step == segment.step
}

/// A request lies within some segment.
pub open spec fn lies_in_some(arrival: Arrival, segments: Seq<RateSegment>) -> bool {
    exists|s: int| 0 <= s < segments.len() && lies_in(arrival, #[trigger] segments[s])
}

/// `arrival` is the request of `all` that comes `j` rounds after the first
/// one of a shard.
pub open spec fn is_nth_of(
    all: Seq<Arrival>,
    shard: u64,
    shards: u64,
    j: int,
    arrival: Arrival,
) -> bool {
    let at = shard + j * shards;
    at < all.len() && arrival == all[at]
}

/// However far the shards have walked, together they send every point of the
/// grid exactly once, across the borders of segments too: the requests of
/// shard `i` of `n` are the `i`-th of those a single shard sends and every
/// `n`-th after it, in this order. Each lies within a segment and asks for
/// the same number of chunks.
pub proof fn law_the_shards_share_out_the_grid(
    segments: Seq<RateSegment>,
    offset: spec_fn(u64, u64) -> u64,
    shard: u64,
    shards: u64,
    chunks: u32,
    steps: nat,
)
    requires
        shard < shards,
        steps < u64::MAX,
    ensures
        ({
            let all = sent((segments, 0, 1, chunks), offset, steps);
            let mine = sent((segments, shard, shards, chunks), offset, steps);
            &&& forall|j: int|
                0 <= j < mine.len() ==> is_nth_of(all, shard, shards, j, #[trigger] mine[j])
            &&& all.len() <= shard + mine.len() * shards
            &&& forall|m: int|
                0 <= m < all.len() ==> (#[trigger] all[m]).chunks == chunks && lies_in_some(
                    all[m],
                    segments,
                )
        }),
{
    lemma_share_of_the_grid(segments, offset, shard, shards, chunks, steps);
}

proof fn lemma_share_of_the_grid(
    segments: Seq<RateSegment>,
    offset: spec_fn(u64, u64) -> u64,
    shard: u64,
    shards: u64,
    chunks: u32,
    steps: nat,
)
    requires
        shard < shards,
        steps < u64::MAX,
    ensures
        ({
            let all = sent((segments, 0, 1, chunks), offset, steps);
            let mine = sent((segments, shard, shards, chunks), offset, steps);
            &&& all.len() == walk(segments, offset, steps).2 <= steps
            &&& walk(segments, offset, steps).1 <= steps
            &&& forall|j: int|
                0 <= j < mine.len() ==> is_nth_of(all, shard, shards, j, #[trigger] mine[j])
            &&& all.len() <= shard + mine.len() * shards
            &&& mine.len() > 0 ==> shard + (mine.len() - 1) * shards < all.len()
            &&& forall|m: int|
                0 <= m < all.len() ==> (#[trigger] all[m]).chunks == chunks && lies_in_some(
                    all[m],
                    segments,
                )
        }),
    decreases steps,
{
    let one = (segments, 0u64, 1u64, chunks);
    let part = (segments, shard, shards, chunks);
    let mine = sent(part, offset, steps);
    if steps > 0 {
        let prev = (steps - 1) as nat;
        lemma_share_of_the_grid(segments, offset, shard, shards, chunks, prev);
        let at = walk(segments, offset, prev);
        let all_before = sent(one, offset, prev);
        let mine_before = sent(part, offset, prev);
        let all = sent(one, offset, steps);
        let n = mine_before.len() as int;
        let g = at.2 as int;
        if at.0 < segments.len() {
            let seg = segments[at.0 as int];
            let off = offset(at.1, seg.rate);
            let at_ns = time::capped(seg.start_ns + off);
            if at_ns < seg.end_ns {
                assert(at.2 % 1 == 0);
                let arrival = Arrival {
                    sched_ns: at_ns,
                    chunks,
                    lifetime_ns: 0,
                    step: seg.step,
                };
                assert(all == all_before.push(arrival));
                assert(lies_in(arrival, segments[at.0 as int]));
                assert(lies_in_some(arrival, segments));
                assert forall|m: int| 0 <= m < all.len() implies (#[trigger] all[m]).chunks
                    == chunks && lies_in_some(all[m], segments) by {
                    if m < all_before.len() {
                        assert(all[m] == all_before[m]);
                    }
                }
                lemma_turn(shard as int, shards as int, n, g);
                if takes_point(shard, shards, at.2) {
                    assert(mine == mine_before.push(arrival));
                    assert((n + 1) * shards == n * shards + shards) by (nonlinear_arith);
                }
                assert forall|j: int| 0 <= j < mine.len() implies is_nth_of(
                    all,
                    shard,
                    shards,
                    j,
                    #[trigger] mine[j],
                ) by {
                    if j < n {
                        assert(mine[j] == mine_before[j]);
                        assert(0 <= j * shards) by (nonlinear_arith)
                            requires
                                j >= 0,
                        ;
                    }
                }
            }
        }
    } else {
        assert(mine.len() * shards == 0) by (nonlinear_arith)
            requires
                mine.len() == 0,
        ;
    }
}

/// A shard that has taken `n` of `g` points takes the next one exactly when
/// its number is `shard + n * shards`.
proof fn lemma_turn(shard: int, shards: int, n: int, g: int)
    requires
        0 <= shard < shards,
        0 <= n,
        0 <= g <= shard + n * shards,
        n > 0 ==> shard + (n - 1) * shards < g,
    ensures
        g % shards == shard <==> g == shard + n * shards,
{
    if g == shard + n * shards {
        vstd::arithmetic::div_mod::lemma_fundamental_div_mod_converse(g, shards, n, shard);
    } else if n > 0 {
        assert((n - 1) * shards == n * shards - shards) by (nonlinear_arith);
        let low = g - (n - 1) * shards;
        if low < shards {
            vstd::arithmetic::div_mod::lemma_fundamental_div_mod_converse(g, shards, n - 1, low);
        } else {
            vstd::arithmetic::div_mod::lemma_fundamental_div_mod_converse(
                g,
                shards,
                n,
                low - shards,
            );
        }
    } else {
        assert(n * shards == 0) by (nonlinear_arith)
            requires
                n == 0,
        ;
        vstd::arithmetic::div_mod::lemma_small_mod(g as nat, shards as nat);
    }
}

/// A stream lasts until its last chunk: the first comes after the delay that
/// is asked for, and every chunk after the first takes one interval more. A
/// stream without chunks lasts as long as one with a single chunk.
pub proof fn law_every_further_chunk_takes_one_interval(plan: StreamPlan, chunks: u32)
    requires
        0 < chunks < u32::MAX,
    ensures
        plan.lifetime(0) == plan.ttft_ns,
        plan.lifetime(1) == plan.ttft_ns,
        plan.lifetime((chunks + 1) as u32) == plan.lifetime(chunks) + plan.interval_us * 1_000,
{
    let step = plan.interval_us * 1_000;
    assert(chunks * step == (chunks - 1) * step + step) by (nonlinear_arith);
    assert(0 * step == 0) by (nonlinear_arith);
}

/// The pre-built streams are connected evenly over the first second: the
/// `k`-th of `n` starts `k / n` of a second after the origin, rounded down to
/// a nanosecond, so the first at the origin and none after the second.
pub proof fn law_prebuilt_streams_spread_over_the_first_second(state: StreamArrivals)
    requires
        state.prebuilt_next < state.prebuilt,
    ensures
        ({
            let offset = state.prebuilt_at() - state.origin_ns;
            &&& 0 <= offset < 1_000_000_000
            &&& offset * state.prebuilt <= 1_000_000_000 * state.prebuilt_next
            &&& 1_000_000_000 * state.prebuilt_next < (offset + 1) * state.prebuilt
            &&& state.prebuilt_next == 0 ==> offset == 0
        }),
{
    let n = state.prebuilt as int;
    let x = 1_000_000_000 * state.prebuilt_next as int;
    let q = x / n;
    vstd::arithmetic::div_mod::lemma_fundamental_div_mod(x, n);
    assert(q * n <= x && x < (q + 1) * n) by (nonlinear_arith)
        requires
            x == n * q + x % n,
            0 <= x % n < n,
    ;
    assert(0 <= q) by (nonlinear_arith)
        requires
            x < (q + 1) * n,
            0 <= x,
            n > 0,
    ;
    assert(q < 1_000_000_000) by (nonlinear_arith)
        requires
            q * n <= x,
            x < 1_000_000_000 * n,
            n > 0,
    ;
    if state.prebuilt_next == 0 {
        assert(q == 0) by (nonlinear_arith)
            requires
                q * n <= 0,
                q >= 0,
                n > 0,
        ;
    }
}

/// Of the next pre-built stream and the next one to arrive the earlier comes
/// first, the pre-built one where both are due at once; nothing comes only
/// where neither is left.
pub proof fn law_the_earlier_stream_comes_first(state: StreamArrivals)
    requires
        state.wf(),
        state.prebuilt_next < state.prebuilt ==> state.prebuilt_at() <= u64::MAX,
        !state.poisson ==> state.next_poisson_ns == u64::MAX,
        state.prebuilt_at() >= state.origin_ns,
    ensures
        ({
            let left = state.prebuilt_next < state.prebuilt;
            match state.next() {
                Draw::Prebuilt { at_ns, elapsed_ns } => {
                    &&& left
                    &&& at_ns == state.prebuilt_at()
                    &&& at_ns <= state.next_poisson_ns
                    &&& elapsed_ns == at_ns - state.origin_ns
                },
                Draw::Poisson { arrives_ns } => {
                    &&& state.poisson
                    &&& arrives_ns == state.next_poisson_ns
                    &&& left ==> arrives_ns < state.prebuilt_at()
                },
                Draw::Nothing => !left && !state.poisson,
            }
        }),
{
}

/// A stream that comes before the end is scheduled for exactly its time, with
/// the chunks that were drawn for it and the lifetime they take; one that
/// comes at the end or after it is not scheduled.
pub proof fn law_a_stream_is_scheduled_for_its_time(
    state: StreamArrivals,
    at_ns: u64,
    chunks: u32,
)
    requires
        state.plan.lifetime(chunks) <= u64::MAX,
    ensures
        state.in_time(at_ns, chunks) is Some <==> at_ns < state.end_ns,
        state.in_time(at_ns, chunks) matches Some(a) ==> a.sched_ns == at_ns && a.chunks == chunks
            && a.lifetime_ns == state.plan.lifetime(chunks) && a.step == 0,
{
    let n = if chunks == 0 {
        0int
    } else {
        chunks - 1
    };
    assert(n * (state.plan.interval_us * 1_000) >= 0) by (nonlinear_arith)
        requires
            n >= 0,
    ;
}

/// A ramp has a step for every rate, each as long as a step and at its own
/// rate, behind a warmup at the start rate where there is one.
pub proof fn law_a_ramp_has_a_step_for_every_rate(
    origin_ns: int,
    warmup_ns: int,
    start_rate: u64,
    rates: Seq<u64>,
    step_ns: int,
    i: int,
)
    requires
        0 <= origin_ns,
        0 <= warmup_ns,
        0 <= step_ns,
        rates.len() < u32::MAX,
        origin_ns + warmup_ns + rates.len() * step_ns <= u64::MAX,
        0 <= i < rates.len(),
    ensures
        ({
            let plan = ramp_plan(origin_ns, warmup_ns, start_rate, rates, step_ns);
            let lead = if warmup_ns > 0 {
                1int
            } else {
                0
            };
            &&& plan.len() == rates.len() + lead
            &&& plan[lead + i].rate == rates[i]
            &&& plan[lead + i].step == i + 1
            &&& plan[lead + i].start_ns == origin_ns + warmup_ns + i * step_ns
            &&& plan[lead + i].end_ns - plan[lead + i].start_ns == step_ns
            &&& warmup_ns > 0 ==> plan[0].rate == start_rate && plan[0].step == 0
                && plan[0].start_ns == origin_ns && plan[0].end_ns == origin_ns + warmup_ns
        }),
{
    assert(0 <= i * step_ns && (i + 1) * step_ns == i * step_ns + step_ns && (i + 1) * step_ns
        <= rates.len() * step_ns) by (nonlinear_arith)
        requires
            0 <= i < rates.len(),
            0 <= step_ns,
    ;
}

/// A shard sends a request at a point of the grid exactly at that point's
/// time, asking for the chunks of the run and in the step of the segment;
/// only points before the end of their segment are sent at, and only those of
/// the shard's own turn.
pub proof fn law_a_point_is_sent_at_its_own_time(
    fixed: (Seq<RateSegment>, u64, u64, u32),
    at: (usize, u64, u64),
    offset_ns: u64,
)
    requires
        fixed.2 > 0,
        at.0 < fixed.0.len(),
        fixed.0[at.0 as int].start_ns + offset_ns <= u64::MAX,
    ensures
        ({
            let seg = fixed.0[at.0 as int];
            let due = seg.start_ns + offset_ns;
            match point_at(fixed, at, offset_ns) {
                Point::Mine(a) => {
                    &&& a.sched_ns == due
                    &&& due < seg.end_ns
                    &&& a.chunks == fixed.3
                    &&& a.step == seg.step
                    &&& at.2 % fixed.2 == fixed.1
                },
                Point::Other => due < seg.end_ns && at.2 % fixed.2 != fixed.1,
                Point::NextSegment => due >= seg.end_ns,
            }
        }),
{
}

} // verus!
