//! One shard: its connections, the requests in flight and what it decides on
//! every event.
//!
//! Timing rules:
//!
//! - Every latency starts at the request's *scheduled* time, never at the
//!   time it was actually sent, so a slow server or a late load generator
//!   cannot hide latency (no coordinated omission).
//! - `EmitLag` is the time taken immediately before the first syscall that
//!   puts the request on its way (`write` on a pooled connection, `connect`
//!   on a new one) minus the scheduled time.
//! - `TtftReused` repeats `Ttft`, censored bounds included, for the requests
//!   whose attempt went out on a pooled connection.
//!
//! A request whose pooled (previously used) connection turns out to be
//! closed or reset within [`STALE_WINDOW_NS`] of the send, before any
//! response byte arrived, lost the keep-alive race against the server's idle
//! close. It is retried once on a fresh connection with its original
//! scheduled time and counted as a stale retry. A later close means the
//! server worked on the request and failed it: a plain error.
//!
//! Sends that fall behind are fired at most [`FIRE_BURST_NS`] per turn of
//! the event loop. Once stopped, a shard sends nothing more (planned sends
//! are dropped, not sent late) and gives the requests in flight [`DRAIN_NS`]
//! to finish before it censors them.
//!
//! The event loop around the shard does the input and output: it hands in
//! what happened and carries out what is decided.

use crate::histogram;
use crate::histogram::{record, Bounds};
use crate::loadgen::censor;
use crate::loadgen::censor::{overdue, Censored, LowerBound, Metric};
use crate::loadgen::diagnostics;
use crate::loadgen::diagnostics::{Diag, Intervals, Miss, Recorder};
use crate::loadgen::errors::{status_kind, ErrorKind};
use crate::loadgen::flight;
use crate::loadgen::flight::{Connection, Mode, Request, Slab};
use crate::loadgen::ledger;
use crate::loadgen::ramp::{Report, StepReport};
use crate::loadgen::response;
use crate::loadgen::response::{Completion, Framing, ResponseError, ResponseParser, State};
use crate::loadgen::schedule::{Arrival, RateSegment, SEC_NS};
use crate::loadgen::tracker::{Acc, RampSpec, RampTracker, StepAcc};
use crate::time;
use crate::time::{earlier, later};
use crate::wire::Marker;
use vstd::multiset::Multiset;
use vstd::prelude::*;

verus! {

/// Period of concurrency sampling and live-status updates.
pub const SAMPLE_NS: u64 = 10_000_000;

/// A pooled connection that closes within this time of the send lost the
/// keep-alive race: the server's close crossed the request on the wire, so
/// it arrives within one round trip plus event-loop latency.
pub const STALE_WINDOW_NS: u64 = 5_000_000;

/// Longest a turn of the event loop spends firing overdue sends before it
/// polls again.
pub const FIRE_BURST_NS: u64 = 1_000_000;

/// After a stop, the requests in flight get this long to finish; the rest
/// are censored.
pub const DRAIN_NS: u64 = 1_000_000_000;

/// Events a shard can handle: no counter can overflow before.
pub const EVENT_LIMIT: u64 = 0xffff_fff0_0000_0000;

/// Transport-level counters.
#[derive(Debug, Clone, Copy, PartialEq, Eq, Structural)]
pub struct Counters {
    /// Requests started by the schedule.
    pub requests_scheduled: u64,
    /// Connections opened.
    pub connections_opened: u64,
    /// Requests sent on a pooled connection.
    pub reused_sends: u64,
    /// Stale pooled connections retried.
    pub stale_retries: u64,
    /// Idle pooled connections closed by the peer.
    pub idle_closed: u64,
    /// Receives that returned data.
    pub rx_batches: u64,
    /// Receives with data but without a kernel timestamp.
    pub rx_batches_without_timestamp: u64,
    /// Requests still open when the run ended (not errors).
    pub open_at_end: u64,
    /// Timed-out or open-at-end requests that contributed censored samples.
    pub censored_requests: u64,
    /// Censored latency samples (lower bounds) recorded, one per metric: the
    /// TTFT bound of a request on a pooled connection counts under `Ttft`
    /// and `TtftReused`.
    pub censored_samples: u64,
}

impl Counters {
    /// No counter exceeds `n`.
    pub open spec fn within(self, n: int) -> bool {
        &&& self.requests_scheduled <= n
        &&& self.connections_opened <= n
        &&& self.reused_sends <= n
        &&& self.stale_retries <= n
        &&& self.idle_closed <= n
        &&& self.rx_batches <= n
        &&& self.rx_batches_without_timestamp <= n
        &&& self.open_at_end <= n
        &&& self.censored_requests <= n
        &&& self.censored_samples <= n
    }

    /// The counters of both can be added up.
    pub open spec fn can_add(self, other: Counters) -> bool {
        &&& self.requests_scheduled + other.requests_scheduled <= u64::MAX
        &&& self.connections_opened + other.connections_opened <= u64::MAX
        &&& self.reused_sends + other.reused_sends <= u64::MAX
        &&& self.stale_retries + other.stale_retries <= u64::MAX
        &&& self.idle_closed + other.idle_closed <= u64::MAX
        &&& self.rx_batches + other.rx_batches <= u64::MAX
        &&& self.rx_batches_without_timestamp + other.rx_batches_without_timestamp <= u64::MAX
        &&& self.open_at_end + other.open_at_end <= u64::MAX
        &&& self.censored_requests + other.censored_requests <= u64::MAX
        &&& self.censored_samples + other.censored_samples <= u64::MAX
    }

    /// All counters at zero.
    pub open spec fn zero() -> Counters {
        Counters {
            requests_scheduled: 0,
            connections_opened: 0,
            reused_sends: 0,
            stale_retries: 0,
            idle_closed: 0,
            rx_batches: 0,
            rx_batches_without_timestamp: 0,
            open_at_end: 0,
            censored_requests: 0,
            censored_samples: 0,
        }
    }

    /// The counters of both, added up.
    pub open spec fn plus(self, other: Counters) -> Counters {
        Counters {
            requests_scheduled: (self.requests_scheduled + other.requests_scheduled) as u64,
            connections_opened: (self.connections_opened + other.connections_opened) as u64,
            reused_sends: (self.reused_sends + other.reused_sends) as u64,
            stale_retries: (self.stale_retries + other.stale_retries) as u64,
            idle_closed: (self.idle_closed + other.idle_closed) as u64,
            rx_batches: (self.rx_batches + other.rx_batches) as u64,
            rx_batches_without_timestamp: (self.rx_batches_without_timestamp
                + other.rx_batches_without_timestamp) as u64,
            open_at_end: (self.open_at_end + other.open_at_end) as u64,
            censored_requests: (self.censored_requests + other.censored_requests) as u64,
            censored_samples: (self.censored_samples + other.censored_samples) as u64,
        }
    }

    /// Whether the counters of both can be added up.
    pub fn fits_with(&self, other: &Counters) -> (r: bool)
        ensures
            r == self.can_add(*other),
    {
        self.requests_scheduled.checked_add(other.requests_scheduled).is_some()
            && self.connections_opened.checked_add(other.connections_opened).is_some()
            && self.reused_sends.checked_add(other.reused_sends).is_some()
            && self.stale_retries.checked_add(other.stale_retries).is_some()
            && self.idle_closed.checked_add(other.idle_closed).is_some()
            && self.rx_batches.checked_add(other.rx_batches).is_some()
            && self.rx_batches_without_timestamp.checked_add(
            other.rx_batches_without_timestamp,
        ).is_some() && self.open_at_end.checked_add(other.open_at_end).is_some()
            && self.censored_requests.checked_add(other.censored_requests).is_some()
            && self.censored_samples.checked_add(other.censored_samples).is_some()
    }

    /// Adds another shard's counters.
    pub fn add(&mut self, other: &Counters)
        requires
            old(self).can_add(*other),
        ensures
            *final(self) == old(self).plus(*other),
    {
        self.requests_scheduled += other.requests_scheduled;
        self.connections_opened += other.connections_opened;
        self.reused_sends += other.reused_sends;
        self.stale_retries += other.stale_retries;
        self.idle_closed += other.idle_closed;
        self.rx_batches += other.rx_batches;
        self.rx_batches_without_timestamp += other.rx_batches_without_timestamp;
        self.open_at_end += other.open_at_end;
        self.censored_requests += other.censored_requests;
        self.censored_samples += other.censored_samples;
    }
}

impl Default for Counters {
    fn default() -> (r: Self)
        ensures
            r == Counters::zero(),
    {
        Counters {
            requests_scheduled: 0,
            connections_opened: 0,
            reused_sends: 0,
            stale_retries: 0,
            idle_closed: 0,
            rx_batches: 0,
            rx_batches_without_timestamp: 0,
            open_at_end: 0,
            censored_requests: 0,
            censored_samples: 0,
        }
    }
}

/// Something the interval recorder is told.
#[derive(Debug, Clone, Copy, PartialEq, Eq, Structural)]
pub enum Record {
    /// A latency from `from_ns` to `to_ns`, in the interval of `at_ns`.
    Span {
        /// When it was taken.
        at_ns: u64,
        /// Metric.
        metric: Metric,
        /// Start of the span.
        from_ns: u64,
        /// End of the span.
        to_ns: u64,
    },
    /// A chunk received.
    Chunk {
        /// When.
        received_ns: u64,
    },
    /// A request completed.
    Request {
        /// When.
        done_ns: u64,
    },
    /// A failure.
    Error {
        /// When.
        failed_ns: u64,
        /// Its kind.
        kind: ErrorKind,
    },
    /// The number of requests in flight.
    Concurrency {
        /// When.
        sampled_ns: u64,
        /// Requests in flight.
        open: u64,
    },
}

/// What a shard knows of a connection beside its parser.
pub ghost struct Conn {
    /// Responses completed.
    pub served: u32,
    /// The request in flight.
    pub request: Option<Request>,
}

/// The plain state of a shard's requests and connections.
#[verifier::ext_equal]
pub ghost struct Net {
    /// Connections by slot.
    pub conns: Seq<Option<Conn>>,
    /// Slots to reuse.
    pub free: Seq<usize>,
    /// Idle connections, the most recently used last.
    pub idle: Seq<usize>,
    /// The request being dispatched.
    pub pending: Option<Request>,
    /// Requests scheduled and not finished.
    pub open: int,
    /// Transport counters.
    pub counters: Counters,
    /// Chunks received.
    pub chunks: int,
    /// Requests completed.
    pub requests: int,
    /// Errors, retries included.
    pub errors: int,
    /// What the interval recorder is told.
    pub records: Seq<Record>,
}

/// `s` without the last `v` in it.
pub open spec fn without(s: Seq<usize>, v: usize) -> Seq<usize>
    decreases s.len(),
{
    if s.len() == 0 {
        s
    } else if s.last() == v {
        s.drop_last()
    } else {
        without(s.drop_last(), v).push(s.last())
    }
}

impl Net {
    /// There is a connection in this slot.
    pub open spec fn live(self, slot: int) -> bool {
        0 <= slot < self.conns.len() && self.conns[slot] is Some
    }

    /// The connection in a live slot.
    pub open spec fn conn(self, slot: int) -> Conn {
        self.conns[slot]->Some_0
    }

    /// After a connection is closed: its request, if any, is to be settled.
    pub open spec fn closed(self, slot: usize) -> Net {
        Net {
            conns: self.conns.update(slot as int, None),
            free: self.free.push(slot),
            idle: without(self.idle, slot),
            pending: match self.conn(slot as int).request {
                Some(request) => Some(request),
                None => self.pending,
            },
            ..self
        }
    }

    /// After a failure is counted.
    pub open spec fn errored(self, at_ns: u64, kind: ErrorKind) -> Net {
        Net {
            errors: self.errors + 1,
            records: self.records.push(Record::Error { failed_ns: at_ns, kind }),
            ..self
        }
    }

    /// After the request being dispatched ended.
    pub open spec fn settled(self) -> Net {
        Net { pending: None, open: self.open - 1, ..self }
    }

    /// After something is told to the interval recorder.
    pub open spec fn told(self, record: Record) -> Net {
        Net { records: self.records.push(record), ..self }
    }

    /// With other counters.
    pub open spec fn counting(self, counters: Counters) -> Net {
        Net { counters, ..self }
    }

    /// After the request being dispatched is put on connection `slot`.
    pub open spec fn carrying(self, slot: usize, request: Request) -> Net {
        Net {
            conns: self.conns.update(
                slot as int,
                Some(Conn { request: Some(request), ..self.conn(slot as int) }),
            ),
            pending: None,
            ..self
        }
    }
}

/// The connections beside their parsers.
pub open spec fn conns_of(entries: Seq<Option<Connection>>) -> Seq<Option<Conn>> {
    Seq::new(
        entries.len(),
        |i: int|
            match entries[i] {
                Some(c) => Some(Conn { served: c.served, request: c.request }),
                None => None,
            },
    )
}

/// The state of one shard.
#[derive(Debug)]
pub struct Shard {
    /// Shard number.
    pub index: usize,
    /// High bits of the stream ids, which stay unique across shards.
    pub sid_base: u64,
    /// Response measurement.
    pub mode: Mode,
    /// Common interval origin of all shards.
    pub origin_ns: u64,
    /// Requests older than this are abandoned.
    pub request_timeout_ns: u64,
    /// End of the run.
    pub end_ns: u64,
    /// The stop flag.
    pub stop: bool,
    /// Once the stop flag is seen: when, and when the drain ends.
    pub stopped: Option<(u64, u64)>,
    /// When concurrency is sampled next.
    pub next_sample: u64,
    /// When timeouts are looked for next.
    pub next_second: u64,
    /// When the event loop last started waiting.
    pub wait_started_ns: u64,
    /// When the event loop last returned from its wait.
    pub woke_ns: u64,
    /// The next scheduled request.
    pub next: Option<Arrival>,
    /// Connections.
    pub slab: Slab,
    /// Idle connections, the most recently used last.
    pub idle: Vec<usize>,
    /// The request being dispatched.
    pub pending: Option<Request>,
    /// Requests started.
    pub started: u64,
    /// Requests scheduled and not finished.
    pub open: u64,
    /// Chunks received.
    pub chunks_total: u64,
    /// Requests completed.
    pub requests_total: u64,
    /// Errors, retries included.
    pub errors_total: u64,
    /// Transport counters.
    pub counters: Counters,
    /// Lower bounds of the latencies of abandoned requests.
    pub censored: Censored,
    /// Deadline misses, fresh connections and request slip.
    pub diagnostics: Recorder,
    /// Ramp mode.
    pub ramp: Option<RampTracker>,
    /// What the interval recorder is to be told.
    pub records: Vec<Record>,
    /// Events handled, which bounds every counter.
    pub events: u64,
}

/// No count of the diagnostics exceeds `n`.
pub open spec fn diag_within(d: Diag, n: int) -> bool {
    &&& d.late_wakeups <= n
    &&& d.busy_loop_misses <= n
    &&& d.fresh_sends <= n
    &&& d.negative_slips <= n
    &&& d.slips.len() <= n
    &&& d.fresh_ttfts.len() <= n
}

/// No count of a step exceeds `n`.
pub open spec fn acc_within(acc: Acc, n: int) -> bool {
    &&& 0 <= acc.outstanding
    &&& 0 <= acc.requests
    &&& 0 <= acc.errors
    &&& acc.outstanding + acc.requests + acc.errors <= n
    &&& acc.late_sends <= n
}

/// The idle connections are live, listed once and carry no request.
pub open spec fn idle_ok(slab: Slab, idle: Seq<usize>) -> bool {
    &&& forall|i: int|
        0 <= i < idle.len() ==> slab.live((#[trigger] idle[i]) as int) && slab.conn(
            idle[i] as int,
        ).request is None
    &&& forall|i: int, j: int|
        0 <= i < j < idle.len() ==> #[trigger] idle[i] != #[trigger] idle[j]
}

/// `slot` is not among the idle connections.
pub open spec fn not_idle(idle: Seq<usize>, slot: usize) -> bool {
    forall|i: int| 0 <= i < idle.len() ==> #[trigger] idle[i] != slot
}

impl Shard {
    /// The plain state of the requests and connections.
    pub open spec fn net(self) -> Net {
        Net {
            conns: conns_of(self.slab.entries@),
            free: self.slab.free@,
            idle: self.idle@,
            pending: self.pending,
            open: self.open as int,
            counters: self.counters,
            chunks: self.chunks_total as int,
            requests: self.requests_total as int,
            errors: self.errors_total as int,
            records: self.records@,
        }
    }

    /// Requests scheduled and not finished, of the step given if one is.
    pub open spec fn open_in(self, step: Option<u32>) -> int {
        flight::in_flight(self.slab.entries@, step) + (if self.pending matches Some(r) && (
        step is Some ==> r.step == step->Some_0) {
            1int
        } else {
            0
        })
    }

    /// Every step in progress has as many requests outstanding as are open,
    /// and a step that was reported is not in progress.
    pub open spec fn tracks(self, tracker: RampTracker) -> bool {
        &&& tracker.wf()
        &&& tracker.acc(0) is None
        &&& forall|s: u32|
            s > 0 ==> {
                &&& tracker.is_reported(s) ==> (#[trigger] tracker.acc(s)) is None
                &&& !tracker.is_reported(s) ==> tracker.so_far(s).outstanding == self.open_in(
                    Some(s),
                )
                &&& acc_within(tracker.so_far(s), self.events as int)
            }
    }

    /// No counter exceeds the events handled.
    pub open spec fn counted(self) -> bool {
        let n = self.events as int;
        &&& self.started <= n
        &&& self.open <= n
        &&& self.chunks_total <= n
        &&& self.requests_total <= n
        &&& self.errors_total <= n
        &&& self.counters.within(n)
        &&& self.censored.recorded <= n
        &&& diag_within(self.diagnostics.intervals.from(0), n)
    }

    /// The invariant of a shard between events.
    pub open spec fn wf(self) -> bool {
        &&& self.slab.wf()
        &&& self.censored.wf()
        &&& self.diagnostics.wf()
        &&& idle_ok(self.slab, self.idle@)
        &&& self.open == self.open_in(None)
        &&& self.counted()
        &&& self.ramp matches Some(tracker) ==> self.tracks(tracker)
    }

    /// The configuration of both is the same.
    pub open spec fn same_config(self, other: Shard) -> bool {
        &&& self.index == other.index
        &&& self.sid_base == other.sid_base
        &&& self.mode == other.mode
        &&& self.origin_ns == other.origin_ns
        &&& self.request_timeout_ns == other.request_timeout_ns
    }

    /// The event loop stands at the same point for both.
    pub open spec fn same_loop(self, other: Shard) -> bool {
        &&& self.end_ns == other.end_ns
        &&& self.stop == other.stop
        &&& self.stopped == other.stopped
        &&& self.next_sample == other.next_sample
        &&& self.next_second == other.next_second
        &&& self.wait_started_ns == other.wait_started_ns
        &&& self.woke_ns == other.woke_ns
        &&& self.next == other.next
        &&& self.started == other.started
    }

    /// Every connection of `before`, but the one in `slot`, has the parser
    /// that it had.
    pub open spec fn same_parsers(self, before: Shard, slot: int) -> bool {
        forall|s: int|
            s != slot && #[trigger] before.slab.live(s) ==> self.slab.live(s) && self.slab.conn(
                s,
            ).parser == before.slab.conn(s).parser
    }

    /// Another event can be handled.
    pub open spec fn has_room(self) -> bool {
        self.events < EVENT_LIMIT
    }

    /// At most `n` events were handled since `before`.
    pub open spec fn after(self, before: Shard, n: int) -> bool {
        before.events <= self.events <= before.events + n
    }
}

/// The parts of a shard that do not track what happened are the same.
pub open spec fn same_evidence(a: Shard, b: Shard) -> bool {
    &&& a.censored == b.censored
    &&& a.diagnostics == b.diagnostics
}

/// A ramp is still tracked when no request of a step started or ended.
proof fn lemma_still_tracks(before: Shard, after: Shard)
    requires
        before.ramp matches Some(tracker) ==> before.tracks(tracker),
        after.ramp == before.ramp,
        forall|step: Option<u32>| #[trigger] after.open_in(step) == before.open_in(step),
        after.events >= before.events,
    ensures
        after.ramp matches Some(tracker) ==> after.tracks(tracker),
{
    if before.ramp is Some {
        let tracker = before.ramp->Some_0;
        assert forall|s: u32| s > 0 implies {
            &&& tracker.is_reported(s) ==> (#[trigger] tracker.acc(s)) is None
            &&& !tracker.is_reported(s) ==> tracker.so_far(s).outstanding == after.open_in(Some(s))
            &&& acc_within(tracker.so_far(s), after.events as int)
        } by {
            assert(after.open_in(Some(s)) == before.open_in(Some(s)));
        }
    }
}

/// Configuration of a shard.
#[derive(Debug)]
pub struct ShardConfig {
    /// Shard number.
    pub index: usize,
    /// Response measurement.
    pub mode: Mode,
    /// Common interval origin of all shards.
    pub origin_ns: u64,
    /// Scheduled end of the run.
    pub end_ns: u64,
    /// Requests older than this are abandoned.
    pub request_timeout_ns: u64,
    /// Bounds of the latency histograms.
    pub bounds: Bounds,
    /// Ramp mode.
    pub ramp: Option<RampSpec>,
}

/// The stream id of request number `started` of shard `index`.
pub open spec fn stream_id(index: u64, started: u64) -> u64 {
    (index << 48) | started
}

/// No two requests have the same stream id: not within a shard, nor across
/// shards.
pub proof fn law_stream_ids_are_unique(i: u64, a: u64, j: u64, b: u64)
    requires
        i < 0x1_0000,
        j < 0x1_0000,
        a < 0x1_0000_0000_0000,
        b < 0x1_0000_0000_0000,
        stream_id(i, a) == stream_id(j, b),
    ensures
        i == j,
        a == b,
{
    assert(i == j && a == b) by (bit_vector)
        requires
            i < 0x1_0000,
            j < 0x1_0000,
            a < 0x1_0000_0000_0000,
            b < 0x1_0000_0000_0000,
            (i << 48) | a == (j << 48) | b,
    ;
}

impl Shard {
    /// A shard whose first request is `next`.
    pub fn new(config: ShardConfig, next: Option<Arrival>) -> (r: Self)
        requires
            config.bounds.valid(),
            config.origin_ns + SEC_NS <= u64::MAX,
        ensures
            r.wf(),
            r.index == config.index,
            r.sid_base == stream_id(config.index as u64, 0),
            r.mode == config.mode,
            r.origin_ns == config.origin_ns,
            r.request_timeout_ns == config.request_timeout_ns,
            r.end_ns == config.end_ns,
            !r.stop,
            r.stopped is None,
            r.next_sample == config.origin_ns,
            r.next_second == config.origin_ns + SEC_NS,
            r.wait_started_ns == 0,
            r.woke_ns == 0,
            r.next == next,
            r.started == 0,
            r.net() == (Net {
                conns: Seq::empty(),
                free: Seq::empty(),
                idle: Seq::empty(),
                pending: None,
                open: 0,
                counters: Counters::zero(),
                chunks: 0,
                requests: 0,
                errors: 0,
                records: Seq::empty(),
            }),
            r.censored.samples@.len() == 0,
            r.censored.saturated@.len() == 0,
            r.censored.bounds == config.bounds,
            r.diagnostics.intervals.entries@.len() == 0,
            r.diagnostics.origin_ns == config.origin_ns,
            r.diagnostics.intervals.bounds == config.bounds,
            config.ramp is None ==> r.ramp is None,
            config.ramp matches Some(spec) ==> (r.ramp matches Some(t) && t.spec == spec
                && t.bounds == config.bounds && t.next_report == 0 && forall|s: u32| (
            #[trigger] t.acc(s)) is None),
            r.events == 0,
    {
        broadcast use vstd::multiset::group_multiset_axioms;

        let ramp = match config.ramp {
            Some(spec) => Some(RampTracker::new(spec, config.bounds)),
            None => None,
        };
        let base: u64 = (config.index as u64) << 48;
        proof {
            let i = config.index as u64;
            assert((i << 48) | 0 == i << 48) by (bit_vector);
        }
        let r = Shard {
            index: config.index,
            sid_base: base,
            mode: config.mode,
            origin_ns: config.origin_ns,
            request_timeout_ns: config.request_timeout_ns,
            end_ns: config.end_ns,
            stop: false,
            stopped: None,
            next_sample: config.origin_ns,
            next_second: config.origin_ns + SEC_NS,
            wait_started_ns: 0,
            woke_ns: 0,
            next,
            slab: Slab::new(),
            idle: Vec::new(),
            pending: None,
            started: 0,
            open: 0,
            chunks_total: 0,
            requests_total: 0,
            errors_total: 0,
            counters: Counters::default(),
            censored: Censored::new(config.bounds),
            diagnostics: Recorder::new(config.origin_ns, config.bounds),
            ramp,
            records: Vec::new(),
            events: 0,
        };
        assert(r.net().conns =~= Seq::empty());
        assert(r.net().free =~= Seq::empty());
        assert(r.net().idle =~= Seq::empty());
        assert(r.net().records =~= Seq::empty());
        r
    }

    /// Whether another event can be handled.
    pub fn can_handle(&self) -> (r: bool)
        ensures
            r == self.has_room(),
    {
        self.events < EVENT_LIMIT
    }

    /// Hands out what the interval recorder is to be told.
    pub fn take_records(&mut self) -> (r: Vec<Record>)
        requires
            old(self).wf(),
        ensures
            final(self).wf(),
            final(self).slab == old(self).slab,
            final(self).same_config(*old(self)),
            final(self).same_loop(*old(self)),
            same_evidence(*final(self), *old(self)),
            final(self).ramp == old(self).ramp,
            final(self).events == old(self).events,
            r@ == old(self).records@,
            final(self).net() == (Net { records: Seq::empty(), ..old(self).net() }),
    {
        let mut records: Vec<Record> = Vec::new();
        std::mem::swap(&mut records, &mut self.records);
        proof {
            assert(self.net().records =~= Seq::empty());
            lemma_still_tracks(*old(self), *self);
        }
        records
    }

    /// Removes a connection from the pool and the slab. Its request, if any,
    /// is to be settled.
    pub fn close(&mut self, slot: usize) -> (r: Option<Connection>)
        requires
            old(self).wf(),
            old(self).pending is None || (old(self).slab.live(slot as int) ==> old(self).slab.conn(
                slot as int,
            ).request is None),
        ensures
            final(self).wf(),
            final(self).same_config(*old(self)),
            final(self).same_loop(*old(self)),
            same_evidence(*final(self), *old(self)),
            final(self).ramp == old(self).ramp,
            final(self).events == old(self).events,
            !old(self).slab.live(slot as int) ==> final(self).slab == old(self).slab,
            r == if old(self).slab.live(slot as int) {
                Some(old(self).slab.conn(slot as int))
            } else {
                None
            },
            final(self).net() == if old(self).slab.live(slot as int) {
                old(self).net().closed(slot)
            } else {
                old(self).net()
            },
            forall|s: int|
                s != slot ==> #[trigger] final(self).slab.live(s) == old(self).slab.live(s),
            forall|s: int|
                s != slot && #[trigger] old(self).slab.live(s) ==> final(self).slab.conn(s) == old(
                    self,
                ).slab.conn(s),
            !final(self).slab.live(slot as int),
    {
        let removed = self.slab.remove(slot);
        if removed.is_none() {
            return None;
        }
        let ghost idle = self.idle@;
        let mut pos: usize = self.idle.len();
        while pos > 0 && self.idle[pos - 1] != slot
            invariant
                pos <= self.idle@.len(),
                idle == self.idle@,
                forall|k: int| pos <= k < idle.len() ==> #[trigger] idle[k] != slot,
            decreases pos,
        {
            pos -= 1;
        }
        if pos > 0 {
            self.idle.remove(pos - 1);
        }
        proof {
            lemma_without(idle, slot, pos - 1);
            assert(self.idle@ == without(idle, slot));
            lemma_idle_after_close(old(self).slab, idle, slot, pos - 1, self.slab);
        }
        if let Some(conn) = &removed {
            if conn.request.is_some() {
                self.pending = conn.request;
            }
        }
        proof {
            assert(self.net().conns =~= old(self).net().closed(slot).conns);
            assert forall|step: Option<u32>| #[trigger] self.open_in(step) == old(self).open_in(
                step,
            ) by {
                assert(flight::in_flight(self.slab.entries@, step) == flight::in_flight(
                    old(self).slab.entries@,
                    step,
                ) - (if flight::carries(removed, step) {
                    1int
                } else {
                    0
                }));
            }
            assert(self.open_in(None) == old(self).open_in(None));
            lemma_still_tracks(*old(self), *self);
        }
        removed
    }

    /// Counts a failure.
    fn record_error(&mut self, at_ns: u64, kind: ErrorKind)
        requires
            old(self).wf(),
            old(self).events < u64::MAX,
        ensures
            final(self).wf(),
            final(self).same_config(*old(self)),
            final(self).same_loop(*old(self)),
            same_evidence(*final(self), *old(self)),
            final(self).ramp == old(self).ramp,
            final(self).slab == old(self).slab,
            final(self).events == old(self).events + 1,
            final(self).net() == old(self).net().errored(at_ns, kind),
    {
        self.records.push(Record::Error { failed_ns: at_ns, kind });
        self.errors_total += 1;
        self.events += 1;
        proof {
            lemma_still_tracks(*old(self), *self);
        }
    }

    /// Ends the request being dispatched; `latency_ns` is `None` when it
    /// failed.
    fn finish_request(&mut self, latency_ns: Option<u64>)
        requires
            old(self).wf(),
            old(self).pending is Some,
            old(self).events < EVENT_LIMIT + 0x1_0000_0004,
        ensures
            final(self).wf(),
            final(self).same_config(*old(self)),
            final(self).same_loop(*old(self)),
            same_evidence(*final(self), *old(self)),
            final(self).slab == old(self).slab,
            final(self).events == old(self).events + 1,
            final(self).net() == old(self).net().settled(),
            request_done(
                old(self).ramp,
                final(self).ramp,
                old(self).pending->Some_0.step,
                latency_ns,
            ),
    {
        let step: u32 = match self.pending {
            Some(request) => request.step,
            None => 0,
        };
        self.open -= 1;
        self.pending = None;
        self.events += 1;
        if let Some(ramp) = &mut self.ramp {
            proof {
                let t = *ramp;
                assert(old(self).tracks(t));
                if t.acc(step) is Some {
                    assert(step > 0);
                    assert(old(self).open_in(Some(step)) >= 1);
                }
            }
            ramp.on_done(step, latency_ns);
        }
        proof {
            assert(self.slab.entries@ == old(self).slab.entries@);
            if self.ramp is Some {
                let was = old(self).ramp->Some_0;
                let now = self.ramp->Some_0;
                assert(now.acc(0) is None);
                assert forall|s: u32| s > 0 implies {
                    &&& now.is_reported(s) ==> (#[trigger] now.acc(s)) is None
                    &&& !now.is_reported(s) ==> now.so_far(s).outstanding == self.open_in(Some(s))
                    &&& acc_within(now.so_far(s), self.events as int)
                } by {
                    assert(was.is_reported(s) == now.is_reported(s));
                    assert(was.acc(s) is None || was.acc(s) is Some);
                    if s == step {
                        assert(old(self).open_in(Some(s)) == self.open_in(Some(s)) + 1);
                        if was.acc(s) is None {
                            assert(was.so_far(s).outstanding == 0);
                            assert(old(self).open_in(Some(s)) >= 1);
                        }
                    } else {
                        assert(now.acc(s) == was.acc(s));
                        assert(old(self).open_in(Some(s)) == self.open_in(Some(s)));
                    }
                }
            }
        }
    }
}

/// What is to be done about the next scheduled request.
#[derive(Debug, Clone, Copy, PartialEq, Eq, Structural)]
pub enum Due {
    /// Nothing yet.
    Nothing,
    /// Nothing: the shard cannot keep up with the schedule and stopped.
    Saturated {
        /// Step of the late send.
        step: u32,
        /// How late it was.
        lag_ns: u64,
    },
    /// The request is to be written to an idle connection; the outcome goes
    /// to [`Shard::wrote`].
    Reuse {
        /// Slot of the connection.
        slot: usize,
        /// The request.
        request: Request,
    },
    /// A connection is to be opened for the request; the outcome goes to
    /// [`Shard::connected`].
    Connect {
        /// The request.
        queued: Request,
    },
}

/// The request that an arrival starts.
pub open spec fn new_request(arrival: Arrival, sid: u64) -> Request {
    Request {
        sched_ns: arrival.sched_ns,
        sent_ns: arrival.sched_ns,
        sid,
        chunks: arrival.chunks,
        step: arrival.step,
        retried: false,
        fresh: false,
        markers: 0,
        last_marker_sched: 0,
    }
}

impl Net {
    /// After a request is started: it goes to the most recently used idle
    /// connection, or to a new one.
    pub open spec fn started(self, request: Request) -> Net {
        Net {
            pending: Some(request),
            open: self.open + 1,
            idle: if self.idle.len() > 0 {
                self.idle.drop_last()
            } else {
                self.idle
            },
            counters: Counters {
                requests_scheduled: (self.counters.requests_scheduled + 1) as u64,
                ..self.counters
            },
            ..self
        }
    }

    /// Where the next request goes.
    pub open spec fn dispatch(self, request: Request) -> Due {
        if self.idle.len() > 0 {
            Due::Reuse { slot: self.idle.last(), request }
        } else {
            Due::Connect { queued: request }
        }
    }
}

/// What a request of `step` started `lag_ns` late does to a ramp.
pub open spec fn request_started(
    before: Option<RampTracker>,
    after: Option<RampTracker>,
    step: u32,
    lag_ns: u64,
) -> bool {
    match before {
        None => after is None,
        Some(t) => after matches Some(u) && {
            &&& u.same_plan(t)
            &&& forall|s: u32| #[trigger]
                u.acc(s) == if s != step || s == 0 {
                    t.acc(s)
                } else {
                    Some(t.so_far(s).started(lag_ns, t.spec.stop_p99_ns))
                }
        },
    }
}

/// What a send of `step` reached `lag_ns` late does to a ramp.
pub open spec fn send_lagged(
    before: Option<RampTracker>,
    after: Option<RampTracker>,
    step: u32,
    lag_ns: u64,
) -> bool {
    match before {
        None => after is None,
        Some(t) => after matches Some(u) && {
            &&& u.same_plan(t)
            &&& forall|s: u32| #[trigger]
                u.acc(s) == if s != step || s == 0 {
                    t.acc(s)
                } else {
                    Some(t.so_far(s).lagged(lag_ns))
                }
        },
    }
}

/// A deadline between the start and the end of the last wait was missed by
/// a late wake-up, any other by a busy loop.
pub open spec fn miss_of(wait_started_ns: u64, woke_ns: u64, sched_ns: u64) -> Miss {
    if wait_started_ns <= sched_ns < woke_ns {
        Miss::LateWakeup
    } else {
        Miss::BusyLoop
    }
}

/// What a missed deadline leaves in the diagnostics.
pub open spec fn miss_diag(miss: Miss, miss_ns: u64) -> Diag {
    Diag {
        late_wakeups: if miss == Miss::LateWakeup {
            1
        } else {
            0
        },
        busy_loop_misses: if miss == Miss::BusyLoop {
            1
        } else {
            0
        },
        max_miss_ns: miss_ns as int,
        ..Diag::nothing()
    }
}

impl Shard {
    /// The next scheduled request is to be looked at now.
    pub open spec fn is_due(self, now: u64) -> bool {
        &&& !self.stop
        &&& self.next is Some
        &&& self.next->Some_0.sched_ns <= now
        &&& now < time::capped(self.woke_ns + FIRE_BURST_NS)
    }

    /// A send reached `lag_ns` late is beyond what the ramp allows.
    pub open spec fn saturates(self, lag_ns: u64) -> bool {
        self.ramp matches Some(t) && lag_ns > t.spec.saturation_lag_ns
    }

    /// Starts `arrival`, reached `lag_ns` after its scheduled time.
    fn fire(&mut self, arrival: Arrival, lag_ns: u64) -> (r: Due)
        requires
            old(self).wf(),
            old(self).pending is None,
            old(self).events < EVENT_LIMIT + 16,
            old(self).ramp matches Some(t) ==> arrival.step == 0 || !t.is_reported(arrival.step),
        ensures
            final(self).wf(),
            final(self).same_config(*old(self)),
            final(self).same_loop(
                Shard { started: (old(self).started + 1) as u64, ..*old(self) },
            ),
            same_evidence(*final(self), *old(self)),
            final(self).slab == old(self).slab,
            final(self).events == old(self).events + 1,
            request_started(old(self).ramp, final(self).ramp, arrival.step, lag_ns),
            ({
                let request = new_request(arrival, old(self).sid_base | old(self).started);
                &&& final(self).net() == old(self).net().started(request)
                &&& r == old(self).net().dispatch(request)
            }),
    {
        let request = Request {
            sched_ns: arrival.sched_ns,
            sent_ns: arrival.sched_ns,
            sid: self.sid_base | self.started,
            chunks: arrival.chunks,
            step: arrival.step,
            retried: false,
            fresh: false,
            markers: 0,
            last_marker_sched: 0,
        };
        self.started += 1;
        self.open += 1;
        self.counters.requests_scheduled += 1;
        self.events += 1;
        let ghost step = arrival.step;
        if let Some(ramp) = &mut self.ramp {
            proof {
                assert(old(self).tracks(*ramp));
                assert(ramp.acc(step) is None || ramp.acc(step) is Some);
            }
            ramp.on_start(arrival.step, lag_ns);
        }
        self.pending = Some(request);
        let idle = self.idle.pop();
        proof {
            assert(self.slab.entries@ == old(self).slab.entries@);
            assert(idle is None ==> self.idle@ =~= old(self).idle@);
            if self.ramp is Some {
                let was = old(self).ramp->Some_0;
                let now = self.ramp->Some_0;
                assert forall|s: u32| s > 0 implies {
                    &&& now.is_reported(s) ==> (#[trigger] now.acc(s)) is None
                    &&& !now.is_reported(s) ==> now.so_far(s).outstanding == self.open_in(Some(s))
                    &&& acc_within(now.so_far(s), self.events as int)
                } by {
                    assert(was.is_reported(s) == now.is_reported(s));
                    assert(was.acc(s) is None || was.acc(s) is Some);
                    if s == step {
                        assert(self.open_in(Some(s)) == old(self).open_in(Some(s)) + 1);
                    } else {
                        assert(now.acc(s) == was.acc(s));
                        assert(old(self).open_in(Some(s)) == self.open_in(Some(s)));
                    }
                }
                assert(now.acc(0) is None);
            }
        }
        match idle {
            Some(slot) => Due::Reuse { slot, request },
            None => Due::Connect { queued: request },
        }
    }

    /// Decides about the next scheduled request at `now`; `reached` is when
    /// the loop found it due. A request that is started has its place in the
    /// schedule taken by the one after it, which is handed in with
    /// [`Shard::set_next`]. In ramp mode a send reached later than the
    /// saturation limit stops the shard instead: the send is not made, and
    /// the step's report counts it as unsent.
    pub fn fire_due(&mut self, now: u64, reached: u64) -> (r: Due)
        requires
            old(self).wf(),
            old(self).pending is None,
            old(self).has_room(),
            old(self).next matches Some(a) ==> (old(self).ramp matches Some(t) ==> a.step == 0
                || !t.is_reported(a.step)),
        ensures
            final(self).wf(),
            final(self).same_config(*old(self)),
            final(self).after(*old(self), 2),
            final(self).censored == old(self).censored,
            final(self).slab == old(self).slab,
            !old(self).is_due(now) ==> r == Due::Nothing && final(self).net() == old(self).net()
                && final(self).same_loop(*old(self)) && same_evidence(*final(self), *old(self))
                && final(self).ramp == old(self).ramp,
            old(self).is_due(now) ==> {
                let arrival = old(self).next->Some_0;
                let lag_ns = (now - arrival.sched_ns) as u64;
                if old(self).saturates(lag_ns) {
                    &&& r == Due::Saturated { step: arrival.step, lag_ns }
                    &&& final(self).net() == old(self).net()
                    &&& final(self).same_loop(Shard { stop: true, ..*old(self) })
                    &&& send_lagged(old(self).ramp, final(self).ramp, arrival.step, lag_ns)
                    &&& final(self).diagnostics == old(self).diagnostics
                } else {
                    let request = new_request(arrival, old(self).sid_base | old(self).started);
                    &&& r == old(self).net().dispatch(request)
                    &&& final(self).net() == old(self).net().started(request)
                    &&& final(self).same_loop(
                        Shard {
                            next: None,
                            started: (old(self).started + 1) as u64,
                            ..*old(self)
                        },
                    )
                    &&& request_started(old(self).ramp, final(self).ramp, arrival.step, lag_ns)
                    &&& if arrival.sched_ns < reached {
                        old(self).diagnostics.adds(
                            reached,
                            miss_diag(
                                miss_of(
                                    old(self).wait_started_ns,
                                    old(self).woke_ns,
                                    arrival.sched_ns,
                                ),
                                (reached - arrival.sched_ns) as u64,
                            ),
                            final(self).diagnostics,
                        )
                    } else {
                        final(self).diagnostics == old(self).diagnostics
                    }
                }
            },
    {
        let burst_end: u64 = self.woke_ns.saturating_add(FIRE_BURST_NS);
        let arrival = match self.next {
            Some(arrival) => arrival,
            None => {
                return Due::Nothing;
            },
        };
        if self.stop || arrival.sched_ns > now || now >= burst_end {
            return Due::Nothing;
        }
        let lag_ns: u64 = now - arrival.sched_ns;
        let saturated = match &self.ramp {
            Some(ramp) => lag_ns > ramp.spec.saturation_lag_ns,
            None => false,
        };
        if saturated {
            self.stop = true;
            proof {
                assert forall|step: Option<u32>| #[trigger] self.open_in(step) == old(self).open_in(
                    step,
                ) by {}
                lemma_still_tracks(*old(self), *self);
            }
            self.note_lag(arrival.step, lag_ns);
            return Due::Saturated { step: arrival.step, lag_ns };
        }
        if arrival.sched_ns < reached {
            self.deadline_missed(arrival.sched_ns, reached);
        }
        let ghost mid = *self;
        self.next = None;
        proof {
            assert forall|step: Option<u32>| #[trigger] self.open_in(step) == mid.open_in(
                step,
            ) by {}
            lemma_still_tracks(mid, *self);
        }
        self.fire(arrival, lag_ns)
    }

    fn note_lag(&mut self, step: u32, lag_ns: u64)
        requires
            old(self).wf(),
            old(self).events < u64::MAX,
            old(self).ramp matches Some(t) ==> step == 0 || !t.is_reported(step),
        ensures
            final(self).wf(),
            final(self).same_config(*old(self)),
            final(self).same_loop(*old(self)),
            same_evidence(*final(self), *old(self)),
            final(self).slab == old(self).slab,
            final(self).net() == old(self).net(),
            final(self).events == old(self).events,
            send_lagged(old(self).ramp, final(self).ramp, step, lag_ns),
    {
        if let Some(ramp) = &mut self.ramp {
            proof {
                assert(old(self).tracks(*ramp));
                assert(ramp.acc(step) is None || ramp.acc(step) is Some);
            }
            ramp.note_lag(step, lag_ns);
        }
        proof {
            if self.ramp is Some {
                let was = old(self).ramp->Some_0;
                let now = self.ramp->Some_0;
                assert forall|s: u32| s > 0 implies {
                    &&& now.is_reported(s) ==> (#[trigger] now.acc(s)) is None
                    &&& !now.is_reported(s) ==> now.so_far(s).outstanding == self.open_in(Some(s))
                    &&& acc_within(now.so_far(s), self.events as int)
                } by {
                    assert(was.is_reported(s) == now.is_reported(s));
                    assert(was.acc(s) is None || was.acc(s) is Some);
                    assert(old(self).open_in(Some(s)) == self.open_in(Some(s)));
                    if s != step {
                        assert(now.acc(s) == was.acc(s));
                    }
                }
                assert(now.acc(0) is None);
            }
        }
    }

    /// Classifies a send whose deadline `sched_ns` passed before the loop
    /// reached it at `reached`.
    fn deadline_missed(&mut self, sched_ns: u64, reached: u64)
        requires
            old(self).wf(),
            old(self).events < EVENT_LIMIT + 16,
            sched_ns < reached,
        ensures
            final(self).wf(),
            final(self).same_config(*old(self)),
            final(self).same_loop(*old(self)),
            final(self).censored == old(self).censored,
            final(self).slab == old(self).slab,
            final(self).ramp == old(self).ramp,
            final(self).net() == old(self).net(),
            final(self).pending == old(self).pending,
            final(self).events == old(self).events + 1,
            old(self).diagnostics.adds(
                reached,
                miss_diag(
                    miss_of(old(self).wait_started_ns, old(self).woke_ns, sched_ns),
                    (reached - sched_ns) as u64,
                ),
                final(self).diagnostics,
            ),
    {
        broadcast use vstd::multiset::group_multiset_axioms;

        let miss = if self.wait_started_ns <= sched_ns && sched_ns < self.woke_ns {
            Miss::LateWakeup
        } else {
            Miss::BusyLoop
        };
        self.diagnostics.deadline_missed(reached, reached - sched_ns, miss);
        self.events += 1;
        proof {
            assert(self.diagnostics.intervals.from(0) == old(self).diagnostics.intervals.from(
                0,
            ).plus(miss_diag(miss, (reached - sched_ns) as u64)));
            assert forall|step: Option<u32>| #[trigger] self.open_in(step) == old(self).open_in(
                step,
            ) by {}
            lemma_still_tracks(*old(self), *self);
        }
    }

    /// Hands in the next scheduled request.
    pub fn set_next(&mut self, next: Option<Arrival>)
        requires
            old(self).wf(),
        ensures
            final(self).wf(),
            final(self).same_config(*old(self)),
            final(self).same_loop(Shard { next, ..*old(self) }),
            same_evidence(*final(self), *old(self)),
            final(self).ramp == old(self).ramp,
            final(self).slab == old(self).slab,
            final(self).events == old(self).events,
            final(self).net() == old(self).net(),
    {
        self.next = next;
        proof {
            assert forall|step: Option<u32>| #[trigger] self.open_in(step) == old(self).open_in(
                step,
            ) by {}
            lemma_still_tracks(*old(self), *self);
        }
    }
}

/// What became of a request that was written to an idle connection, or of a
/// connection that failed.
#[derive(Debug, Clone, Copy, PartialEq, Eq, Structural)]
pub enum Sent {
    /// The request is in flight, or has ended.
    Settled,
    /// The request is to be sent again: a connection is to be opened for it,
    /// and the outcome goes to [`Shard::connected`].
    Retry {
        /// The request.
        again: Request,
    },
}

/// What became of an attempt to open a connection and queue a request on
/// it.
#[derive(Debug, Clone, Copy, PartialEq, Eq, Structural)]
pub enum Connected {
    /// The connection could not be opened.
    Failed,
    /// The connection was opened, but the request could not be queued.
    WriteFailed,
    /// The request is queued.
    Queued,
}

/// The lag of a send behind its scheduled time.
pub open spec fn emit_span(request: Request, t_emit: u64) -> Record {
    Record::Span {
        at_ns: t_emit,
        metric: Metric::EmitLag,
        from_ns: request.sched_ns,
        to_ns: t_emit,
    }
}

impl Net {
    /// The slot that the next connection gets.
    pub open spec fn next_slot(self) -> int {
        if self.free.len() > 0 {
            self.free.last() as int
        } else {
            self.conns.len() as int
        }
    }

    /// After a connection with a request on it is taken in.
    pub open spec fn opened(self, request: Request) -> Net {
        let conn = Some(Conn { served: 0, request: Some(request) });
        Net {
            conns: if self.next_slot() < self.conns.len() {
                self.conns.update(self.next_slot(), conn)
            } else {
                self.conns.push(conn)
            },
            free: if self.free.len() > 0 {
                self.free.drop_last()
            } else {
                self.free
            },
            pending: None,
            ..self
        }
    }

    /// After a request is written to idle connection `slot`.
    pub open spec fn reused(self, slot: usize, t_emit: u64) -> Net {
        let request = self.pending->Some_0;
        self.told(emit_span(request, t_emit)).counting(
            Counters {
                reused_sends: (self.counters.reused_sends + 1) as u64,
                ..self.counters
            },
        ).carrying(slot, Request { sent_ns: t_emit, fresh: false, ..request })
    }

    /// After idle connection `slot` turned out to be dead: the request is to
    /// be sent again.
    pub open spec fn found_dead(self, slot: usize, t_emit: u64) -> Net {
        let request = self.pending->Some_0;
        Net {
            pending: Some(
                Request { sent_ns: t_emit, fresh: false, retried: true, ..request },
            ),
            ..self.told(emit_span(request, t_emit)).closed(slot).counting(
                Counters {
                    stale_retries: (self.counters.stale_retries + 1) as u64,
                    ..self.counters
                },
            ).errored(t_emit, ErrorKind::StaleRetry)
        }
    }

    /// After an attempt to open a connection: the lag of the first attempt
    /// is recorded.
    pub open spec fn attempted(self, t_emit: u64) -> Net {
        let request = self.pending->Some_0;
        if request.retried {
            self
        } else {
            self.told(emit_span(request, t_emit))
        }
    }

    /// After a connection was opened.
    pub open spec fn one_more_connection(self) -> Net {
        self.counting(
            Counters {
                connections_opened: (self.counters.connections_opened + 1) as u64,
                ..self.counters
            },
        )
    }
}

impl Shard {
    /// Goes on after the request was written to an idle connection at
    /// `t_emit`. When that failed nothing was in flight: the peer dropped
    /// the idle connection, and the request is to be sent again.
    pub fn wrote(&mut self, slot: usize, t_emit: u64, ok: bool) -> (r: Sent)
        requires
            old(self).wf(),
            old(self).has_room(),
            old(self).pending is Some,
            old(self).slab.live(slot as int),
            old(self).slab.conn(slot as int).request is None,
            not_idle(old(self).idle@, slot),
        ensures
            final(self).wf(),
            final(self).same_parsers(*old(self), slot as int),
            final(self).same_config(*old(self)),
            final(self).same_loop(*old(self)),
            same_evidence(*final(self), *old(self)),
            final(self).ramp == old(self).ramp,
            final(self).after(*old(self), 3),
            ok ==> r == Sent::Settled && final(self).net() == old(self).net().reused(slot, t_emit)
                && final(self).slab.conn(slot as int).parser.is_fresh(
                flight::expected(old(self).mode, old(self).pending->Some_0),
            ),
            !ok ==> final(self).net() == old(self).net().found_dead(slot, t_emit) && r
                == (Sent::Retry { again: final(self).pending->Some_0 }),
    {
        let ghost before = *self;
        let mut request = match self.pending {
            Some(request) => request,
            None => {
                return Sent::Settled;
            },
        };
        self.records.push(
            Record::Span {
                at_ns: t_emit,
                metric: Metric::EmitLag,
                from_ns: request.sched_ns,
                to_ns: t_emit,
            },
        );
        let expect = self.mode.expect(&request);
        request.sent_ns = t_emit;
        request.fresh = false;
        if !ok {
            proof {
                assert forall|step: Option<u32>| #[trigger] self.open_in(step) == before.open_in(
                    step,
                ) by {}
                lemma_still_tracks(before, *self);
            }
            self.close(slot);
            let ghost closed = *self;
            self.counters.stale_retries += 1;
            self.events += 1;
            request.retried = true;
            self.pending = Some(request);
            proof {
                assert forall|step: Option<u32>| #[trigger] self.open_in(step) == closed.open_in(
                    step,
                ) by {}
                lemma_still_tracks(closed, *self);
            }
            self.record_error(t_emit, ErrorKind::StaleRetry);
            return Sent::Retry { again: request };
        }
        self.counters.reused_sends += 1;
        self.events += 1;
        let ghost entries = self.slab.entries@;
        let entry = &mut self.slab.entries[slot];
        if let Some(conn) = entry {
            conn.parser.reset(expect);
            conn.request = Some(request);
        }
        self.pending = None;
        proof {
            let new = self.slab.entries@[slot as int];
            assert(self.slab.entries@ =~= entries.update(slot as int, new));
            assert(self.net().conns =~= before.net().reused(slot, t_emit).conns);
            lemma_slab_update(before.slab, slot as int, self.slab);
            assert(idle_ok(self.slab, self.idle@)) by {
                assert forall|i: int| 0 <= i < self.idle@.len() implies self.slab.live(
                    (#[trigger] self.idle@[i]) as int,
                ) && self.slab.conn(self.idle@[i] as int).request is None by {
                    assert(before.slab.live(before.idle@[i] as int));
                }
            }
            assert forall|step: Option<u32>| #[trigger] self.open_in(step) == before.open_in(
                step,
            ) by {
                flight::lemma_in_flight_update(entries, slot as int, new, step);
            }
            assert(self.open_in(None) == before.open_in(None));
            lemma_still_tracks(before, *self);
        }
        Sent::Settled
    }

    /// Goes on after a connection was opened for the request at `t_emit`,
    /// or not. Returns the slot of the connection that carries the request;
    /// `None` when the request failed.
    pub fn connected(&mut self, t_emit: u64, outcome: Connected) -> (r: Option<usize>)
        requires
            old(self).wf(),
            old(self).has_room(),
            old(self).pending is Some,
            old(self).slab.entries@.len() < usize::MAX,
        ensures
            final(self).wf(),
            final(self).same_parsers(*old(self), -1),
            final(self).same_config(*old(self)),
            final(self).same_loop(*old(self)),
            final(self).censored == old(self).censored,
            final(self).after(*old(self), 4),
            outcome == Connected::Failed ==> final(self).diagnostics == old(self).diagnostics,
            outcome != Connected::Failed ==> old(self).diagnostics.adds(
                t_emit,
                Diag { fresh_sends: 1, ..Diag::nothing() },
                final(self).diagnostics,
            ),
            outcome == Connected::Queued ==> final(self).ramp == old(self).ramp,
            outcome != Connected::Queued ==> request_done(
                old(self).ramp,
                final(self).ramp,
                old(self).pending->Some_0.step,
                None,
            ),
            ({
                let tried = old(self).net().attempted(t_emit);
                let request = Request { sent_ns: t_emit, fresh: true, ..old(self).pending->Some_0 };
                match outcome {
                    Connected::Failed => r is None && final(self).net() == tried.errored(
                        t_emit,
                        ErrorKind::Connect,
                    ).settled(),
                    Connected::WriteFailed => r is None && final(self).net()
                        == tried.one_more_connection().errored(
                        t_emit,
                        ErrorKind::Connect,
                    ).settled(),
                    Connected::Queued => {
                        &&& r == Some(old(self).net().next_slot() as usize)
                        &&& final(self).net() == tried.one_more_connection().opened(request)
                        &&& final(self).slab.conn(r->Some_0 as int).parser.is_fresh(
                            flight::expected(old(self).mode, request),
                        )
                    },
                }
            }),
    {
        broadcast use vstd::multiset::group_multiset_axioms;

        let ghost before = *self;
        let mut request = match self.pending {
            Some(request) => request,
            None => {
                return None;
            },
        };
        if !request.retried {
            self.records.push(
                Record::Span {
                    at_ns: t_emit,
                    metric: Metric::EmitLag,
                    from_ns: request.sched_ns,
                    to_ns: t_emit,
                },
            );
        }
        request.sent_ns = t_emit;
        request.fresh = true;
        match outcome {
            Connected::Failed => {},
            _ => {
                self.counters.connections_opened += 1;
                self.diagnostics.fresh_send(t_emit);
                self.events += 1;
                assert(self.diagnostics.intervals.from(0) == before.diagnostics.intervals.from(
                    0,
                ).plus(Diag { fresh_sends: 1, ..Diag::nothing() }));
            },
        }
        proof {
            assert forall|step: Option<u32>| #[trigger] self.open_in(step) == before.open_in(
                step,
            ) by {}
            lemma_still_tracks(before, *self);
        }
        match outcome {
            Connected::Queued => {
                let expect = self.mode.expect(&request);
                let conn = Connection {
                    served: 0,
                    request: Some(request),
                    parser: ResponseParser::new(expect),
                };
                let ghost mid = *self;
                let slot: usize = self.slab.insert(conn);
                self.pending = None;
                proof {
                    assert(self.net().conns =~= mid.net().opened(request).conns);
                    assert(self.slab.free@ =~= mid.net().opened(request).free);
                    assert(idle_ok(self.slab, self.idle@)) by {
                        assert forall|i: int| 0 <= i < self.idle@.len() implies self.slab.live(
                            (#[trigger] self.idle@[i]) as int,
                        ) && self.slab.conn(self.idle@[i] as int).request is None by {
                            assert(mid.slab.live(mid.idle@[i] as int));
                        }
                    }
                    assert forall|step: Option<u32>| #[trigger] self.open_in(step) == mid.open_in(
                        step,
                    ) by {
                        assert(flight::in_flight(self.slab.entries@, step) == flight::in_flight(
                            mid.slab.entries@,
                            step,
                        ) + (if flight::carries(Some(conn), step) {
                            1int
                        } else {
                            0
                        }));
                    }
                    assert(self.open_in(None) == mid.open_in(None));
                    lemma_still_tracks(mid, *self);
                }
                Some(slot)
            },
            _ => {
                self.record_error(t_emit, ErrorKind::Connect);
                self.finish_request(None);
                None
            },
        }
    }
}

/// Changing one connection keeps the others and the free slots as they are.
proof fn lemma_slab_update(before: Slab, slot: int, after: Slab)
    requires
        before.wf(),
        before.live(slot),
        after.free@ == before.free@,
        after.entries@ == before.entries@.update(slot, after.entries@[slot]),
        after.entries@[slot] is Some,
        after.entries@[slot]->Some_0.parser.wf(),
    ensures
        after.wf(),
        forall|s: int| s != slot ==> #[trigger] after.live(s) == before.live(s),
        forall|s: int|
            s != slot && #[trigger] before.live(s) ==> after.conn(s) == before.conn(s),
{
    assert forall|s: int| #[trigger] after.live(s) implies after.conn(s).parser.wf() by {
        if s != slot {
            assert(before.live(s));
        }
    }
}

/// What a marker received at `t_recv` tells the interval recorder, given the
/// request before it.
pub open spec fn marker_records(
    mode: Mode,
    request: Request,
    marker: Marker,
    t_recv: u64,
) -> Seq<Record> {
    let wire = seq![
        Record::Span {
            at_ns: t_recv,
            metric: Metric::ChunkWire,
            from_ns: marker.t_write,
            to_ns: t_recv,
        },
        Record::Span {
            at_ns: t_recv,
            metric: Metric::MockWriteLag,
            from_ns: marker.t_sched,
            to_ns: marker.t_write,
        },
    ];
    if mode is Whole {
        wire
    } else {
        let chunk = wire + seq![
            Record::Span {
                at_ns: t_recv,
                metric: Metric::ChunkLatency,
                from_ns: marker.t_sched,
                to_ns: t_recv,
            },
            Record::Chunk { received_ns: t_recv },
        ];
        if request.markers > 0 {
            chunk
        } else {
            let first = chunk.push(
                Record::Span {
                    at_ns: t_recv,
                    metric: Metric::Ttft,
                    from_ns: request.sched_ns,
                    to_ns: t_recv,
                },
            );
            if request.fresh {
                first
            } else {
                first.push(
                    Record::Span {
                        at_ns: t_recv,
                        metric: Metric::TtftReused,
                        from_ns: request.sched_ns,
                        to_ns: t_recv,
                    },
                )
            }
        }
    }
}

/// The request after its markers arrived.
pub open spec fn seen(request: Request, markers: Seq<Marker>) -> Request
    decreases markers.len(),
{
    if markers.len() == 0 {
        request
    } else {
        let before = seen(request, markers.drop_last());
        Request {
            markers: (before.markers + 1) as u32,
            last_marker_sched: markers.last().t_sched,
            ..before
        }
    }
}

/// What markers received at `t_recv` tell the interval recorder.
pub open spec fn markers_records(
    mode: Mode,
    request: Request,
    markers: Seq<Marker>,
    t_recv: u64,
) -> Seq<Record>
    decreases markers.len(),
{
    if markers.len() == 0 {
        Seq::empty()
    } else {
        markers_records(mode, request, markers.drop_last(), t_recv) + marker_records(
            mode,
            seen(request, markers.drop_last()),
            markers.last(),
            t_recv,
        )
    }
}

/// Delay of the mock before the response.
pub open spec fn mock_delay(mode: Mode) -> u64 {
    match mode {
        Mode::Stream { ttft_ns, .. } => ttft_ns,
        Mode::Whole { ttft_ns, .. } => ttft_ns,
    }
}

/// What the first marker of a request leaves in the diagnostics: the TTFT of
/// a stream on a newly opened connection, or the slip of a request on a
/// pooled one. A fresh connection's handshake would count as slip.
pub open spec fn first_marker_diag(
    mode: Mode,
    request: Request,
    marker: Marker,
    t_recv: u64,
    bounds: Bounds,
) -> Diag {
    if request.fresh {
        if mode is Stream {
            Diag {
                fresh_ttfts: Multiset::empty().insert(
                    histogram::histogram_bucket(
                        bounds.tuple(),
                        time::floored(t_recv - request.sched_ns),
                    ),
                ),
                ..Diag::nothing()
            }
        } else {
            Diag::nothing()
        }
    } else {
        let read_ns = time::floored(marker.t_sched - mock_delay(mode));
        if read_ns >= request.sent_ns {
            Diag {
                slips: Multiset::empty().insert(
                    histogram::histogram_bucket(bounds.tuple(), (read_ns - request.sent_ns) as u64),
                ),
                ..Diag::nothing()
            }
        } else {
            Diag { negative_slips: 1, ..Diag::nothing() }
        }
    }
}

/// The first marker of a request is noted in the diagnostics.
pub open spec fn notes_first_marker(
    before: Recorder,
    mode: Mode,
    request: Request,
    markers: Seq<Marker>,
    t_recv: u64,
    after: Recorder,
) -> bool {
    if markers.len() > 0 && request.markers == 0 && !(request.fresh && mode is Whole) {
        before.adds(
            t_recv,
            first_marker_diag(mode, request, markers[0], t_recv, before.intervals.bounds),
            after,
        )
    } else {
        after == before
    }
}

proof fn lemma_seen(request: Request, markers: Seq<Marker>)
    requires
        request.markers + markers.len() <= u32::MAX,
    ensures
        seen(request, markers).markers == request.markers + markers.len(),
        seen(request, markers).sched_ns == request.sched_ns,
        seen(request, markers).sent_ns == request.sent_ns,
        seen(request, markers).fresh == request.fresh,
        seen(request, markers).step == request.step,
    decreases markers.len(),
{
    if markers.len() > 0 {
        lemma_seen(request, markers.drop_last());
    }
}

impl Shard {
    /// Counts a receive that returned data.
    pub fn received_batch(&mut self, timestamped: bool)
        requires
            old(self).wf(),
            old(self).has_room(),
        ensures
            final(self).wf(),
            final(self).same_config(*old(self)),
            final(self).same_loop(*old(self)),
            same_evidence(*final(self), *old(self)),
            final(self).ramp == old(self).ramp,
            final(self).slab == old(self).slab,
            final(self).events == old(self).events + 1,
            final(self).net() == old(self).net().counting(
                Counters {
                    rx_batches: (old(self).counters.rx_batches + 1) as u64,
                    rx_batches_without_timestamp: if timestamped {
                        old(self).counters.rx_batches_without_timestamp
                    } else {
                        (old(self).counters.rx_batches_without_timestamp + 1) as u64
                    },
                    ..old(self).counters
                },
            ),
    {
        self.counters.rx_batches += 1;
        if !timestamped {
            self.counters.rx_batches_without_timestamp += 1;
        }
        self.events += 1;
        proof {
            assert forall|step: Option<u32>| #[trigger] self.open_in(step) == old(self).open_in(
                step,
            ) by {}
            lemma_still_tracks(*old(self), *self);
        }
    }

    /// Decides what becomes of data received at `t_recv`: whether it goes to
    /// the parser. Data without a request closes the connection.
    pub fn begin_data(&mut self, slot: usize, t_recv: u64) -> (r: bool)
        requires
            old(self).wf(),
            old(self).has_room(),
            old(self).pending is None,
            old(self).slab.live(slot as int),
        ensures
            final(self).wf(),
            final(self).same_parsers(*old(self), slot as int),
            final(self).same_config(*old(self)),
            final(self).same_loop(*old(self)),
            same_evidence(*final(self), *old(self)),
            final(self).ramp == old(self).ramp,
            final(self).after(*old(self), 1),
            final(self).pending is None,
            r == old(self).slab.conn(slot as int).request is Some,
            r ==> final(self).slab == old(self).slab && final(self).net() == old(self).net(),
            !r ==> final(self).net() == old(self).net().closed(slot).errored(
                t_recv,
                ErrorKind::Unsolicited,
            ),
    {
        let busy = match &self.slab.entries[slot] {
            Some(conn) => conn.request.is_some(),
            None => false,
        };
        if busy {
            return true;
        }
        self.close(slot);
        self.record_error(t_recv, ErrorKind::Unsolicited);
        false
    }

    /// Takes the markers that the parser accepted from data received at
    /// `t_recv`.
    pub fn on_markers(&mut self, slot: usize, markers: &[Marker], t_recv: u64)
        requires
            old(self).wf(),
            old(self).has_room(),
            old(self).slab.live(slot as int),
            old(self).slab.conn(slot as int).request matches Some(request) && request.markers
                + markers@.len() <= u32::MAX,
        ensures
            final(self).wf(),
            final(self).same_parsers(*old(self), -1),
            final(self).same_config(*old(self)),
            final(self).same_loop(*old(self)),
            final(self).censored == old(self).censored,
            final(self).ramp == old(self).ramp,
            final(self).after(*old(self), markers@.len() as int + 1),
            final(self).slab.live(slot as int),
            final(self).slab.conn(slot as int).parser == old(self).slab.conn(slot as int).parser,
            ({
                let request = old(self).slab.conn(slot as int).request->Some_0;
                &&& notes_first_marker(
                    old(self).diagnostics,
                    old(self).mode,
                    request,
                    markers@,
                    t_recv,
                    final(self).diagnostics,
                )
                &&& final(self).net() == (Net {
                    conns: old(self).net().conns.update(
                        slot as int,
                        Some(
                            Conn {
                                request: Some(seen(request, markers@)),
                                ..old(self).net().conn(slot as int)
                            },
                        ),
                    ),
                    records: old(self).records@ + markers_records(
                        old(self).mode,
                        request,
                        markers@,
                        t_recv,
                    ),
                    chunks: old(self).net().chunks + if old(self).mode is Stream {
                        markers@.len() as int
                    } else {
                        0
                    },
                    ..old(self).net()
                })
            }),
            ({
                let request = old(self).slab.conn(slot as int).request->Some_0;
                let told = old(self).records@;
                let span = seq![(t_recv, request.sched_ns, t_recv)];
                let none = Seq::<(u64, u64, u64)>::empty();
                let first = old(self).mode is Stream && request.markers == 0 && markers@.len() > 0;
                &&& ledger::spans(final(self).records@, Metric::Ttft) == ledger::spans(
                    told,
                    Metric::Ttft,
                ) + if first {
                    span
                } else {
                    none
                }
                &&& ledger::spans(final(self).records@, Metric::TtftReused) == ledger::spans(
                    told,
                    Metric::TtftReused,
                ) + if first && !request.fresh {
                    span
                } else {
                    none
                }
            }),
    {
        broadcast use vstd::multiset::group_multiset_axioms;

        let ghost before = *self;
        proof {
            let request = before.slab.conn(slot as int).request->Some_0;
            ledger::law_the_first_chunk_is_timed_from_the_scheduled_start(
                before.mode,
                request,
                markers@,
                t_recv,
            );
            ledger::lemma_add(
                before.records@,
                markers_records(before.mode, request, markers@, t_recv),
            );
        }
        let first = match &self.slab.entries[slot] {
            Some(conn) => match conn.request {
                Some(request) => request,
                None => {
                    return ;
                },
            },
            None => {
                return ;
            },
        };
        if markers.len() == 0 {
            proof {
                let conns = before.net().conns;
                assert(conns.update(
                    slot as int,
                    Some(
                        Conn { request: Some(seen(first, markers@)), ..before.net().conn(slot as int)
                        },
                    ),
                ) =~= conns);
                assert(before.records@ + markers_records(before.mode, first, markers@, t_recv)
                    =~= before.records@);
            }
            return ;
        }
        let (streaming, ttft_ns) = match self.mode {
            Mode::Stream { ttft_ns, .. } => (true, ttft_ns),
            Mode::Whole { ttft_ns, .. } => (false, ttft_ns),
        };
        if first.markers == 0 {
            if first.fresh {
                if streaming {
                    self.diagnostics.fresh_ttft(t_recv, t_recv.saturating_sub(first.sched_ns));
                }
            } else {
                self.diagnostics.request_slip(
                    t_recv,
                    first.sent_ns,
                    markers[0].t_sched.saturating_sub(ttft_ns),
                );
            }
        }
        let ghost noted = self.diagnostics;
        let mut request = first;
        let mut i: usize = 0;
        assert(markers@.take(0) =~= Seq::empty());
        assert(self.records@ + Seq::<Record>::empty() =~= self.records@);
        while i < markers.len()
            invariant
                i <= markers@.len(),
                first.markers + markers@.len() <= u32::MAX,
                before.events < EVENT_LIMIT,
                before.chunks_total <= before.events,
                *self == (Shard {
                    records: self.records,
                    diagnostics: noted,
                    chunks_total: (before.chunks_total + if streaming {
                        i as int
                    } else {
                        0
                    }) as u64,
                    ..before
                }),
                streaming == (before.mode is Stream),
                request == seen(first, markers@.take(i as int)),
                self.records@ == before.records@ + markers_records(
                    before.mode,
                    first,
                    markers@.take(i as int),
                    t_recv,
                ),
            decreases markers@.len() - i,
        {
            let marker = markers[i];
            proof {
                assert(markers@.take(i + 1).drop_last() =~= markers@.take(i as int));
                lemma_seen(first, markers@.take(i as int));
            }
            let ghost written = self.records@;
            self.records.push(
                Record::Span {
                    at_ns: t_recv,
                    metric: Metric::ChunkWire,
                    from_ns: marker.t_write,
                    to_ns: t_recv,
                },
            );
            self.records.push(
                Record::Span {
                    at_ns: t_recv,
                    metric: Metric::MockWriteLag,
                    from_ns: marker.t_sched,
                    to_ns: marker.t_write,
                },
            );
            if streaming {
                self.records.push(
                    Record::Span {
                        at_ns: t_recv,
                        metric: Metric::ChunkLatency,
                        from_ns: marker.t_sched,
                        to_ns: t_recv,
                    },
                );
                self.records.push(Record::Chunk { received_ns: t_recv });
                self.chunks_total += 1;
                if request.markers == 0 {
                    self.records.push(
                        Record::Span {
                            at_ns: t_recv,
                            metric: Metric::Ttft,
                            from_ns: request.sched_ns,
                            to_ns: t_recv,
                        },
                    );
                    if !request.fresh {
                        self.records.push(
                            Record::Span {
                                at_ns: t_recv,
                                metric: Metric::TtftReused,
                                from_ns: request.sched_ns,
                                to_ns: t_recv,
                            },
                        );
                    }
                }
            }
            proof {
                assert(self.records@ =~= written + marker_records(
                    before.mode,
                    request,
                    marker,
                    t_recv,
                ));
                let next = markers@.take(i + 1);
                assert(markers_records(before.mode, first, next, t_recv) == markers_records(
                    before.mode,
                    first,
                    markers@.take(i as int),
                    t_recv,
                ) + marker_records(before.mode, request, marker, t_recv));
                assert(self.records@ =~= before.records@ + markers_records(
                    before.mode,
                    first,
                    next,
                    t_recv,
                ));
            }
            request.markers += 1;
            request.last_marker_sched = marker.t_sched;
            i += 1;
        }
        assert(markers@.take(i as int) =~= markers@);
        self.events += markers.len() as u64 + 1;
        let ghost entries = self.slab.entries@;
        let ghost middle = *self;
        let entry = &mut self.slab.entries[slot];
        if let Some(conn) = entry {
            conn.request = Some(request);
        }
        proof {
            lemma_seen(first, markers@);
            let new = self.slab.entries@[slot as int];
            assert(self.slab.entries@ =~= entries.update(slot as int, new));
            lemma_slab_update(before.slab, slot as int, self.slab);
            assert(self.net().conns =~= before.net().conns.update(
                slot as int,
                Some(Conn { request: Some(request), ..before.net().conn(slot as int) }),
            ));
            assert(idle_ok(self.slab, self.idle@)) by {
                assert forall|k: int| 0 <= k < self.idle@.len() implies self.slab.live(
                    (#[trigger] self.idle@[k]) as int,
                ) && self.slab.conn(self.idle@[k] as int).request is None by {
                    assert(before.slab.live(before.idle@[k] as int));
                    assert(before.idle@[k] != slot);
                }
            }
            assert forall|step: Option<u32>| #[trigger] self.open_in(step) == before.open_in(
                step,
            ) by {
                flight::lemma_in_flight_update(entries, slot as int, new, step);
            }
            assert(self.open_in(None) == before.open_in(None));
            lemma_still_tracks(before, *self);
            if first.markers == 0 && !(first.fresh && !streaming) {
                assert(noted.intervals.from(0) == before.diagnostics.intervals.from(0).plus(
                    first_marker_diag(
                        before.mode,
                        first,
                        markers@[0],
                        t_recv,
                        before.diagnostics.intervals.bounds,
                    ),
                ));
            }
        }
    }
}

impl Net {
    /// After the request on connection `slot` is taken off it.
    pub open spec fn taken(self, slot: usize) -> Net {
        let conn = self.conn(slot as int);
        Net {
            conns: self.conns.update(
                slot as int,
                Some(Conn { served: (conn.served + 1) as u32, request: None }),
            ),
            pending: conn.request,
            ..self
        }
    }

    /// After a complete response on connection `slot`: a successful one is
    /// recorded, any other is an error.
    pub open spec fn answered(self, slot: usize, mode: Mode, status: u16, t_recv: u64) -> Net {
        let request = self.conn(slot as int).request->Some_0;
        let taken = self.taken(slot);
        if status == 200 {
            let timed = if mode is Whole {
                taken.told(
                    Record::Span {
                        at_ns: t_recv,
                        metric: Metric::RequestLatency,
                        from_ns: request.sched_ns,
                        to_ns: t_recv,
                    },
                )
            } else {
                taken
            };
            Net { requests: self.requests + 1, ..timed.told(Record::Request { done_ns: t_recv }) }.settled()
        } else {
            taken.errored(t_recv, kind_of_status(status)).settled()
        }
    }

    /// After a complete response on connection `slot`, which stays open in
    /// the idle pool or is closed.
    pub open spec fn completed(
        self,
        slot: usize,
        mode: Mode,
        status: u16,
        t_recv: u64,
        reusable: bool,
    ) -> Net {
        let answered = self.answered(slot, mode, status, t_recv);
        if reusable {
            Net { idle: answered.idle.push(slot), ..answered }
        } else {
            answered.closed(slot)
        }
    }

    /// After an idle connection was closed by the peer.
    pub open spec fn idle_lost(self, slot: usize) -> Net {
        self.closed(slot).counting(
            Counters { idle_closed: (self.counters.idle_closed + 1) as u64, ..self.counters },
        )
    }

    /// After a connection failed with a request on it: a stale one is
    /// retried, anything else is an error of `kind`.
    pub open spec fn failed(self, slot: usize, kind: ErrorKind, now: u64, stale: bool) -> Net {
        let closed = self.closed(slot);
        if stale {
            Net {
                pending: Some(Request { retried: true, ..closed.pending->Some_0 }),
                ..closed.counting(
                    Counters {
                        stale_retries: (self.counters.stale_retries + 1) as u64,
                        ..self.counters
                    },
                ).errored(now, ErrorKind::StaleRetry)
            }
        } else {
            closed.errored(now, kind).settled()
        }
    }
}

/// Error kind of a status that is not 200.
pub open spec fn kind_of_status(status: u16) -> ErrorKind {
    if status == 429 {
        ErrorKind::Http429
    } else if status == 503 {
        ErrorKind::Http503
    } else if 400 <= status <= 499 {
        ErrorKind::Http4xx
    } else if 500 <= status <= 599 {
        ErrorKind::Http5xx
    } else {
        ErrorKind::HttpOther
    }
}

/// A failed connection lost the keep-alive race: it had served a request
/// before, nothing of the response has arrived, the request was not retried
/// yet, and it was sent no longer than the stale window ago.
pub open spec fn is_stale(conn: Connection, now: u64) -> bool {
    &&& conn.served > 0
    &&& !conn.parser.any
    &&& conn.request matches Some(request) && !request.retried && time::floored(
        now - request.sent_ns,
    ) <= STALE_WINDOW_NS
}

/// The latency of a request that succeeded, if it did.
pub open spec fn answered_latency(status: u16, request: Request, t_recv: u64) -> Option<u64> {
    if status == 200 {
        Some(time::floored(t_recv - request.sched_ns))
    } else {
        None
    }
}

impl Shard {
    /// Takes the request off a connection that has answered it.
    fn take_request(&mut self, slot: usize)
        requires
            old(self).wf(),
            old(self).pending is None,
            old(self).slab.live(slot as int),
            old(self).slab.conn(slot as int).request is Some,
            old(self).slab.conn(slot as int).served < u32::MAX,
        ensures
            final(self).wf(),
            final(self).same_parsers(*old(self), -1),
            final(self).same_config(*old(self)),
            final(self).same_loop(*old(self)),
            same_evidence(*final(self), *old(self)),
            final(self).ramp == old(self).ramp,
            final(self).events == old(self).events,
            final(self).net() == old(self).net().taken(slot),
            final(self).slab.live(slot as int),
            final(self).slab.conn(slot as int).request is None,
            not_idle(final(self).idle@, slot),
    {
        let ghost before = *self;
        let ghost entries = self.slab.entries@;
        let entry = &mut self.slab.entries[slot];
        if let Some(conn) = entry {
            self.pending = conn.request;
            conn.request = None;
            conn.served += 1;
        }
        proof {
            let new = self.slab.entries@[slot as int];
            assert(self.slab.entries@ =~= entries.update(slot as int, new));
            lemma_slab_update(before.slab, slot as int, self.slab);
            assert(self.net().conns =~= before.net().taken(slot).conns);
            assert forall|k: int| 0 <= k < self.idle@.len() implies self.slab.live(
                (#[trigger] self.idle@[k]) as int,
            ) && self.slab.conn(self.idle@[k] as int).request is None && self.idle@[k] != slot by {
                assert(before.slab.live(before.idle@[k] as int));
                assert(before.idle@[k] != slot);
            }
            assert forall|step: Option<u32>| #[trigger] self.open_in(step) == before.open_in(
                step,
            ) by {
                flight::lemma_in_flight_update(entries, slot as int, new, step);
            }
            assert(self.open_in(None) == before.open_in(None));
            lemma_still_tracks(before, *self);
        }
    }

    /// Accounts for a complete response. `drained` says that nothing is left
    /// to be written to the connection. Returns whether the connection stays
    /// open (back in the idle pool).
    pub fn complete(&mut self, slot: usize, completion: Completion, t_recv: u64, drained: bool) -> (r:
        bool)
        requires
            old(self).wf(),
            old(self).has_room(),
            old(self).pending is None,
            old(self).slab.live(slot as int),
            old(self).slab.conn(slot as int).request is Some,
            old(self).slab.conn(slot as int).served < u32::MAX,
        ensures
            final(self).wf(),
            final(self).same_parsers(*old(self), if r { -1 } else { slot as int }),
            final(self).same_config(*old(self)),
            final(self).same_loop(*old(self)),
            same_evidence(*final(self), *old(self)),
            final(self).after(*old(self), 2),
            r == (completion.keep_alive && drained),
            final(self).net() == old(self).net().completed(
                slot,
                old(self).mode,
                completion.status,
                t_recv,
                r,
            ),
            final(self).pending is None,
            ({
                let request = old(self).slab.conn(slot as int).request->Some_0;
                request_done(
                    old(self).ramp,
                    final(self).ramp,
                    request.step,
                    answered_latency(completion.status, request, t_recv),
                )
            }),
            final(self).requests_total == old(self).requests_total + if completion.status == 200 {
                1int
            } else {
                0
            },
            final(self).errors_total == old(self).errors_total + if completion.status == 200 {
                0int
            } else {
                1
            },
            ledger::spans(final(self).records@, Metric::RequestLatency) == ledger::spans(
                old(self).records@,
                Metric::RequestLatency,
            ) + if completion.status == 200 && old(self).mode is Whole {
                seq![
                    (
                        t_recv,
                        old(self).slab.conn(slot as int).request->Some_0.sched_ns,
                        t_recv,
                    ),
                ]
            } else {
                Seq::empty()
            },
    {
        let reusable = completion.keep_alive && drained;
        proof {
            ledger::law_only_a_200_is_a_success(
                self.net(),
                slot,
                self.mode,
                completion.status,
                t_recv,
                reusable,
            );
        }
        self.take_request(slot);
        let sched_ns: u64 = match self.pending {
            Some(request) => request.sched_ns,
            None => 0,
        };
        if completion.status == 200 {
            let ghost taken = *self;
            match self.mode {
                Mode::Whole { .. } => {
                    self.records.push(
                        Record::Span {
                            at_ns: t_recv,
                            metric: Metric::RequestLatency,
                            from_ns: sched_ns,
                            to_ns: t_recv,
                        },
                    );
                },
                Mode::Stream { .. } => {},
            }
            self.records.push(Record::Request { done_ns: t_recv });
            self.requests_total += 1;
            self.events += 1;
            proof {
                assert forall|step: Option<u32>| #[trigger] self.open_in(step) == taken.open_in(
                    step,
                ) by {}
                lemma_still_tracks(taken, *self);
            }
            self.finish_request(Some(t_recv.saturating_sub(sched_ns)));
        } else {
            self.record_error(t_recv, status_kind(completion.status));
            self.finish_request(None);
        }
        let ghost answered = *self;
        if reusable {
            self.idle.push(slot);
            proof {
                assert forall|k: int| 0 <= k < self.idle@.len() implies self.slab.live(
                    (#[trigger] self.idle@[k]) as int,
                ) && self.slab.conn(self.idle@[k] as int).request is None by {
                    if k < answered.idle@.len() {
                        assert(answered.slab.live(answered.idle@[k] as int));
                    }
                }
                assert forall|step: Option<u32>| #[trigger] self.open_in(step) == answered.open_in(
                    step,
                ) by {}
                lemma_still_tracks(answered, *self);
            }
        } else {
            self.close(slot);
        }
        reusable
    }

    /// Closes a failed connection and settles its request: a stale pooled
    /// connection is retried once where `retry` allows it, anything else is
    /// an error of `kind`.
    pub fn fail(&mut self, slot: usize, kind: ErrorKind, retry: bool, now: u64) -> (r: Sent)
        requires
            old(self).wf(),
            old(self).has_room(),
            old(self).pending is None,
        ensures
            final(self).wf(),
            final(self).same_parsers(*old(self), slot as int),
            final(self).same_config(*old(self)),
            final(self).same_loop(*old(self)),
            same_evidence(*final(self), *old(self)),
            final(self).after(*old(self), 2),
            !final(self).slab.live(slot as int),
            if !old(self).slab.live(slot as int) {
                &&& r == Sent::Settled
                &&& final(self).slab == old(self).slab
                &&& final(self).net() == old(self).net()
                &&& final(self).ramp == old(self).ramp
            } else {
                let conn = old(self).slab.conn(slot as int);
                let stale = retry && is_stale(conn, now);
                match conn.request {
                    None => {
                        &&& r == Sent::Settled
                        &&& final(self).net() == old(self).net().idle_lost(slot)
                        &&& final(self).ramp == old(self).ramp
                    },
                    Some(request) => {
                        &&& final(self).net() == old(self).net().failed(slot, kind, now, stale)
                        &&& stale ==> final(self).ramp == old(self).ramp && r == (Sent::Retry {
                            again: final(self).pending->Some_0,
                        })
                        &&& !stale ==> r == Sent::Settled && request_done(
                            old(self).ramp,
                            final(self).ramp,
                            request.step,
                            None,
                        )
                    },
                }
            },
    {
        let conn = match self.close(slot) {
            None => {
                return Sent::Settled;
            },
            Some(conn) => conn,
        };
        let ghost closed = *self;
        let mut request = match conn.request {
            None => {
                self.counters.idle_closed += 1;
                self.events += 1;
                proof {
                    assert forall|step: Option<u32>| #[trigger] self.open_in(step)
                        == closed.open_in(step) by {}
                    lemma_still_tracks(closed, *self);
                }
                return Sent::Settled;
            },
            Some(request) => request,
        };
        let stale = retry && conn.served > 0 && !conn.parser.received_any() && !request.retried
            && now.saturating_sub(request.sent_ns) <= STALE_WINDOW_NS;
        if stale {
            self.counters.stale_retries += 1;
            self.events += 1;
            request.retried = true;
            self.pending = Some(request);
            proof {
                assert forall|step: Option<u32>| #[trigger] self.open_in(step) == closed.open_in(
                    step,
                ) by {}
                lemma_still_tracks(closed, *self);
            }
            self.record_error(now, ErrorKind::StaleRetry);
            return Sent::Retry { again: request };
        }
        self.record_error(now, kind);
        self.finish_request(None);
        Sent::Settled
    }

    /// Goes on after the peer closed a connection at `now`. `drained` says
    /// that nothing is left to be written to it.
    pub fn on_eof(&mut self, slot: usize, now: u64, drained: bool) -> (r: Sent)
        requires
            old(self).wf(),
            old(self).has_room(),
            old(self).pending is None,
            old(self).slab.live(slot as int),
            old(self).slab.conn(slot as int).served < u32::MAX,
        ensures
            final(self).wf(),
            final(self).same_parsers(*old(self), slot as int),
            final(self).same_config(*old(self)),
            final(self).same_loop(*old(self)),
            same_evidence(*final(self), *old(self)),
            final(self).after(*old(self), 2),
            ({
                let conn = old(self).slab.conn(slot as int);
                match conn.request {
                    None => {
                        &&& r == Sent::Settled
                        &&& final(self).net() == old(self).net().idle_lost(slot)
                        &&& final(self).ramp == old(self).ramp
                    },
                    Some(request) => match end_of_input(conn.parser) {
                        Ok(completion) => {
                            &&& r == Sent::Settled
                            &&& final(self).net() == old(self).net().completed(
                                slot,
                                old(self).mode,
                                completion.status,
                                now,
                                completion.keep_alive && drained,
                            )
                            &&& request_done(
                                old(self).ramp,
                                final(self).ramp,
                                request.step,
                                answered_latency(completion.status, request, now),
                            )
                        },
                        Err(e) => {
                            let stale = is_stale(conn, now);
                            &&& final(self).net() == old(self).net().failed(
                                slot,
                                e.kind_of(),
                                now,
                                stale,
                            )
                            &&& stale ==> final(self).ramp == old(self).ramp && r == (Sent::Retry {
                                again: final(self).pending->Some_0,
                            })
                            &&& !stale ==> r == Sent::Settled && request_done(
                                old(self).ramp,
                                final(self).ramp,
                                request.step,
                                None,
                            )
                        },
                    },
                }
            }),
    {
        let busy = match &self.slab.entries[slot] {
            Some(conn) => conn.request.is_some(),
            None => false,
        };
        if !busy {
            let lost = self.close(slot);
            let ghost closed = *self;
            self.counters.idle_closed += 1;
            self.events += 1;
            proof {
                assert forall|step: Option<u32>| #[trigger] self.open_in(step) == closed.open_in(
                    step,
                ) by {}
                lemma_still_tracks(closed, *self);
            }
            return Sent::Settled;
        }
        match self.end_input(slot) {
            Ok(completion) => {
                self.complete(slot, completion, now, drained);
                Sent::Settled
            },
            Err(e) => self.fail(slot, e.kind(), true, now),
        }
    }

    /// Tells the parser of a connection that no more input follows.
    fn end_input(&mut self, slot: usize) -> (r: Result<Completion, ResponseError>)
        requires
            old(self).wf(),
            old(self).slab.live(slot as int),
            old(self).slab.conn(slot as int).request is Some,
        ensures
            final(self).wf(),
            final(self).same_parsers(*old(self), slot as int),
            final(self).same_config(*old(self)),
            final(self).same_loop(*old(self)),
            same_evidence(*final(self), *old(self)),
            final(self).ramp == old(self).ramp,
            final(self).events == old(self).events,
            final(self).net() == old(self).net(),
            final(self).slab.live(slot as int),
            final(self).slab.conn(slot as int).request == old(self).slab.conn(slot as int).request,
            final(self).slab.conn(slot as int).served == old(self).slab.conn(slot as int).served,
            final(self).slab.conn(slot as int).parser.any == old(self).slab.conn(
                slot as int,
            ).parser.any,
            r == end_of_input(old(self).slab.conn(slot as int).parser),
    {
        let ghost before = *self;
        let ghost entries = self.slab.entries@;
        let entry = &mut self.slab.entries[slot];
        let r = match entry {
            Some(conn) => conn.parser.finish_eof(),
            None => Err(ResponseError::Truncated),
        };
        proof {
            law_feeding_a_parser_changes_no_request(before, slot as int, *self);
        }
        r
    }

    /// The parser of a connection, to which received data is fed.
    pub fn parser_mut(&mut self, slot: usize) -> (r: Option<&mut ResponseParser>)
        requires
            old(self).wf(),
        ensures
            r is Some == old(self).slab.live(slot as int),
            r matches Some(parser) ==> {
                &&& *parser == old(self).slab.conn(slot as int).parser
                &&& *final(self) == (Shard { slab: final(self).slab, ..*old(self) })
                &&& final(self).slab.free == old(self).slab.free
                &&& final(self).slab.entries@ == old(self).slab.entries@.update(
                    slot as int,
                    Some(Connection { parser: *final(parser), ..old(self).slab.conn(slot as int) }),
                )
            },
            r is None ==> *final(self) == *old(self),
    {
        if slot >= self.slab.entries.len() || self.slab.entries[slot].is_none() {
            return None;
        }
        match &mut self.slab.entries[slot] {
            Some(conn) => Some(&mut conn.parser),
            None => None,
        }
    }
}

/// Feeding the parser of one connection changes nothing else, and keeps the
/// shard in order as long as the parser is.
pub proof fn law_feeding_a_parser_changes_no_request(before: Shard, slot: int, after: Shard)
    requires
        before.wf(),
        before.slab.live(slot),
        after == (Shard { slab: after.slab, ..before }),
        after.slab.free == before.slab.free,
        after.slab.entries@ == before.slab.entries@.update(slot, after.slab.entries@[slot]),
        after.slab.entries@[slot] is Some,
        after.slab.conn(slot).parser.wf(),
        after.slab.conn(slot).request == before.slab.conn(slot).request,
        after.slab.conn(slot).served == before.slab.conn(slot).served,
    ensures
        after.wf(),
        after.net() == before.net(),
{
    let new = after.slab.entries@[slot];
    lemma_slab_update(before.slab, slot, after.slab);
    assert(after.net().conns =~= before.net().conns);
    assert forall|k: int| 0 <= k < after.idle@.len() implies after.slab.live(
        (#[trigger] after.idle@[k]) as int,
    ) && after.slab.conn(after.idle@[k] as int).request is None by {
        assert(before.slab.live(before.idle@[k] as int));
    }
    assert forall|step: Option<u32>| #[trigger] after.open_in(step) == before.open_in(step) by {
        flight::lemma_in_flight_update(before.slab.entries@, slot, new, step);
    }
    assert(after.open_in(None) == before.open_in(None));
    lemma_still_tracks(before, after);
}

/// What the end of the input makes of a response in progress.
pub open spec fn end_of_input(parser: ResponseParser) -> Result<Completion, ResponseError> {
    match parser.state {
        State::Body { framing: Framing::UntilEof, status, keep_alive } => response::ending(
            parser.sink,
            Completion { status, keep_alive },
            0,
        ),
        _ => Err(ResponseError::Truncated),
    }
}

/// What a turn of the event loop comes to.
#[derive(Debug, Clone, Copy, PartialEq, Eq, Structural)]
pub enum Turn {
    /// The shard was stopped at `stop_ns` and has drained: the steps that
    /// had started by then are to be reported, and the run is over.
    Drained {
        /// When the stop flag was seen.
        stop_ns: u64,
    },
    /// The run is over.
    Over,
    /// The loop waits.
    Wait {
        /// The next send, for which the timer is armed.
        precise: Option<u64>,
        /// Longest time to wait.
        wait_ns: u64,
    },
}

/// The next multiple of `step` after `now`, counting from `t`.
pub open spec fn next_multiple(t: u64, step: u64, now: u64) -> int {
    t + (time::floored(now - t) / step + 1) * step
}

/// The next multiple of `step` after `now`, counting from `t`.
pub fn advance(t: u64, step: u64, now: u64) -> (r: u64)
    requires
        step > 0,
        next_multiple(t, step, now) <= u64::MAX,
    ensures
        r == next_multiple(t, step, now),
{
    let n: u64 = now.saturating_sub(t) / step;
    proof {
        let q = n + 1;
        assert(q * step >= q) by (nonlinear_arith)
            requires
                q >= 0,
                step >= 1,
        ;
    }
    t + (n + 1) * step
}

/// The next multiple lies after `now`, and no more than one step after it
/// where `now` is not before the start.
pub proof fn law_the_next_multiple_is_just_ahead(t: u64, step: u64, now: u64)
    requires
        step > 0,
    ensures
        next_multiple(t, step, now) > now,
        now >= t ==> next_multiple(t, step, now) <= now + step,
        (next_multiple(t, step, now) - t) % step as int == 0,
{
    let d = time::floored(now - t) as int;
    let s = step as int;
    vstd::arithmetic::div_mod::lemma_fundamental_div_mod(d, s);
    let q = d / s;
    assert(0 <= d % s < s) by (nonlinear_arith)
        requires
            s > 0,
    ;
    assert((q + 1) * s > d && (q + 1) * s <= d + s) by (nonlinear_arith)
        requires
            d == s * q + d % s,
            0 <= d % s < s,
    ;
    vstd::arithmetic::div_mod::lemma_mod_multiples_basic(q + 1, s);
}

impl Shard {
    /// When the loop must wake up for the ramp or the end of the run.
    pub open spec fn wake_by(self) -> u64 {
        match self.stopped {
            Some((_, drain_end)) => drain_end,
            None => match self.ramp {
                Some(t) => if t.next_report < t.spec.steps@.len() {
                    time::smaller(
                        time::capped(
                            t.spec.steps@[t.next_report as int].end_ns + t.spec.judge_delay_ns,
                        ) as int,
                        self.end_ns as int,
                    ) as u64
                } else {
                    self.end_ns
                },
                None => self.end_ns,
            },
        }
    }

    /// Sets the stop flag.
    pub fn request_stop(&mut self)
        requires
            old(self).wf(),
        ensures
            final(self).wf(),
            *final(self) == (Shard { stop: true, ..*old(self) }),
    {
        self.stop = true;
        proof {
            assert forall|step: Option<u32>| #[trigger] self.open_in(step) == old(self).open_in(
                step,
            ) by {}
            lemma_still_tracks(*old(self), *self);
        }
    }

    /// Looks at the stop flag at `now`: once it is seen, the requests in
    /// flight get [`DRAIN_NS`] to finish. The drain never outlasts the
    /// planned end, where the requests still open are censored anyway.
    pub fn see_stop(&mut self, now: u64)
        requires
            old(self).wf(),
        ensures
            final(self).wf(),
            *final(self) == if old(self).stopped is None && old(self).stop {
                Shard {
                    stopped: Some(
                        (
                            now,
                            time::smaller(
                                time::capped(now + DRAIN_NS) as int,
                                time::larger(old(self).end_ns as int, now as int),
                            ) as u64,
                        ),
                    ),
                    ..*old(self)
                }
            } else {
                *old(self)
            },
    {
        if self.stopped.is_none() && self.stop {
            let drain_end: u64 = earlier(now.saturating_add(DRAIN_NS), later(self.end_ns, now));
            self.stopped = Some((now, drain_end));
            proof {
                assert forall|step: Option<u32>| #[trigger] self.open_in(step) == old(self).open_in(
                    step,
                ) by {}
                lemma_still_tracks(*old(self), *self);
            }
        }
    }

    /// Decides at `now`, once the steps that are due have been reported,
    /// whether the loop goes on and how long it waits. A stopped shard sends
    /// nothing more.
    pub fn turn(&mut self, now: u64) -> (r: Turn)
        requires
            old(self).wf(),
        ensures
            final(self).wf(),
            match old(self).stopped {
                Some((stop_ns, drain_end)) => if old(self).open == 0 || now >= drain_end {
                    &&& r == (Turn::Drained { stop_ns })
                    &&& *final(self) == (Shard {
                        end_ns: time::smaller(old(self).end_ns as int, now as int) as u64,
                        ..*old(self)
                    })
                } else {
                    &&& *final(self) == *old(self)
                    &&& r == (Turn::Wait { precise: None, wait_ns: old(self).longest_wait(now) })
                },
                None => {
                    &&& *final(self) == *old(self)
                    &&& r == if now >= old(self).end_ns {
                        Turn::Over
                    } else {
                        Turn::Wait {
                            precise: match old(self).next {
                                Some(arrival) => Some(arrival.sched_ns),
                                None => None,
                            },
                            wait_ns: old(self).longest_wait(now),
                        }
                    }
                },
            },
    {
        let mut precise: Option<u64> = None;
        let wake_by: u64 = match self.stopped {
            Some((stop_ns, drain_end)) => {
                if self.open == 0 || now >= drain_end {
                    self.end_ns = earlier(self.end_ns, now);
                    proof {
                        assert forall|step: Option<u32>| #[trigger] self.open_in(step) == old(
                            self,
                        ).open_in(step) by {}
                        lemma_still_tracks(*old(self), *self);
                    }
                    return Turn::Drained { stop_ns };
                }
                drain_end
            },
            None => {
                if now >= self.end_ns {
                    return Turn::Over;
                }
                if let Some(arrival) = self.next {
                    precise = Some(arrival.sched_ns);
                }
                let report_by: Option<u64> = match &self.ramp {
                    Some(ramp) => ramp.next_deadline(),
                    None => None,
                };
                match report_by {
                    Some(t) => earlier(t, self.end_ns),
                    None => self.end_ns,
                }
            },
        };
        let coarse: u64 = earlier(earlier(self.next_sample, self.next_second), wake_by);
        Turn::Wait { precise, wait_ns: coarse.saturating_sub(now) }
    }

    /// Longest time to wait at `now`.
    pub open spec fn longest_wait(self, now: u64) -> u64 {
        time::floored(
            time::smaller(
                time::smaller(self.next_sample as int, self.next_second as int),
                self.wake_by() as int,
            ) - now,
        )
    }

    /// Notes when the event loop started waiting and woke up.
    pub fn awake(&mut self, wait_started_ns: u64, woke_ns: u64)
        requires
            old(self).wf(),
        ensures
            final(self).wf(),
            *final(self) == (Shard { wait_started_ns, woke_ns, ..*old(self) }),
    {
        self.wait_started_ns = wait_started_ns;
        self.woke_ns = woke_ns;
        proof {
            assert forall|step: Option<u32>| #[trigger] self.open_in(step) == old(self).open_in(
                step,
            ) by {}
            lemma_still_tracks(*old(self), *self);
        }
    }

    /// Samples the requests in flight when it is time to; returns whether it
    /// was.
    pub fn sample(&mut self, now: u64) -> (r: bool)
        requires
            old(self).wf(),
            next_multiple(old(self).next_sample, SAMPLE_NS, now) <= u64::MAX,
        ensures
            final(self).wf(),
            final(self).same_config(*old(self)),
            same_evidence(*final(self), *old(self)),
            final(self).ramp == old(self).ramp,
            final(self).slab == old(self).slab,
            final(self).events == old(self).events,
            r == (now >= old(self).next_sample),
            !r ==> final(self).same_loop(*old(self)) && final(self).net() == old(self).net(),
            r ==> final(self).same_loop(
                Shard {
                    next_sample: next_multiple(old(self).next_sample, SAMPLE_NS, now) as u64,
                    ..*old(self)
                },
            ) && final(self).net() == old(self).net().told(
                Record::Concurrency { sampled_ns: now, open: old(self).open },
            ),
    {
        if now < self.next_sample {
            return false;
        }
        self.records.push(Record::Concurrency { sampled_ns: now, open: self.open });
        self.next_sample = advance(self.next_sample, SAMPLE_NS, now);
        proof {
            assert forall|step: Option<u32>| #[trigger] self.open_in(step) == old(self).open_in(
                step,
            ) by {}
            lemma_still_tracks(*old(self), *self);
        }
        true
    }

    /// Whether timeouts are to be looked for; the next time is a second
    /// later.
    pub fn second_passed(&mut self, now: u64) -> (r: bool)
        requires
            old(self).wf(),
            next_multiple(old(self).next_second, SEC_NS, now) <= u64::MAX,
        ensures
            final(self).wf(),
            r == (now >= old(self).next_second),
            *final(self) == if r {
                Shard {
                    next_second: next_multiple(old(self).next_second, SEC_NS, now) as u64,
                    ..*old(self)
                }
            } else {
                *old(self)
            },
    {
        if now < self.next_second {
            return false;
        }
        self.next_second = advance(self.next_second, SEC_NS, now);
        proof {
            assert forall|step: Option<u32>| #[trigger] self.open_in(step) == old(self).open_in(
                step,
            ) by {}
            lemma_still_tracks(*old(self), *self);
        }
        true
    }

    /// The connection in a slot carries a request that has taken too long.
    pub open spec fn is_expired(self, slot: int, now: u64) -> bool {
        &&& self.slab.live(slot)
        &&& self.slab.conn(slot).request matches Some(request) && time::floored(
            now - request.sched_ns,
        ) > self.request_timeout_ns
    }

    /// The connections whose request has taken too long, in order.
    pub fn expired(&self, now: u64) -> (r: Vec<usize>)
        ensures
            forall|i: int|
                0 <= i < r@.len() ==> self.is_expired((#[trigger] r@[i]) as int, now),
            forall|i: int, j: int| 0 <= i < j < r@.len() ==> r@[i] < r@[j],
            forall|s: int| #[trigger] self.is_expired(s, now) ==> r@.contains(s as usize),
    {
        let mut out: Vec<usize> = Vec::new();
        let mut slot: usize = 0;
        while slot < self.slab.entries.len()
            invariant
                slot <= self.slab.entries@.len(),
                forall|i: int|
                    0 <= i < out@.len() ==> self.is_expired((#[trigger] out@[i]) as int, now)
                        && out@[i] < slot,
                forall|i: int, j: int| 0 <= i < j < out@.len() ==> out@[i] < out@[j],
                forall|s: int|
                    0 <= s < slot && #[trigger] self.is_expired(s, now) ==> out@.contains(
                        s as usize,
                    ),
            decreases self.slab.entries@.len() - slot,
        {
            let ghost before = out@;
            let mut late = false;
            if let Some(conn) = &self.slab.entries[slot] {
                if let Some(request) = conn.request {
                    late = now.saturating_sub(request.sched_ns) > self.request_timeout_ns;
                }
            }
            if late {
                assert(self.is_expired(slot as int, now));
                out.push(slot);
                assert(out@[before.len() as int] == slot);
            }
            proof {
                assert forall|s: int|
                    0 <= s < slot + 1 && #[trigger] self.is_expired(s, now) implies out@.contains(
                    s as usize,
                ) by {
                    if s < slot {
                        let k = choose|k: int| 0 <= k < before.len() && before[k] == s as usize;
                        assert(out@[k] == s as usize);
                    }
                }
            }
            slot += 1;
        }
        out
    }
}

/// Samples of the requests of `step` in flight at `now`, from their
/// scheduled start.
pub open spec fn open_samples(
    entries: Seq<Option<Connection>>,
    step: u32,
    now: u64,
    bounds: (u64, u64, u8),
) -> Multiset<u64>
    decreases entries.len(),
{
    if entries.len() == 0 {
        Multiset::empty()
    } else {
        let rest = open_samples(entries.drop_last(), step, now, bounds);
        if flight::carries(entries.last(), Some(step)) {
            let request = entries.last()->Some_0.request->Some_0;
            rest.insert(
                histogram::histogram_bucket(bounds, time::floored(now - request.sched_ns)),
            )
        } else {
            rest
        }
    }
}

/// The requests in flight in the order of their connections.
pub open spec fn requests_of(entries: Seq<Option<Connection>>) -> Seq<Request>
    decreases entries.len(),
{
    if entries.len() == 0 {
        Seq::empty()
    } else {
        let rest = requests_of(entries.drop_last());
        if flight::carries(entries.last(), None) {
            rest.push(entries.last()->Some_0.request->Some_0)
        } else {
            rest
        }
    }
}

/// The lower bounds that all these requests leave.
pub open spec fn all_bounds(mode: Mode, requests: Seq<Request>, now: u64) -> Seq<LowerBound>
    decreases requests.len(),
{
    if requests.len() == 0 {
        Seq::empty()
    } else {
        all_bounds(mode, requests.drop_last(), now) + censor::lower_bounds(
            mode,
            requests.last(),
            now,
        )
    }
}

/// How many of the requests leave a lower bound.
pub open spec fn leaving(mode: Mode, requests: Seq<Request>, now: u64) -> nat
    decreases requests.len(),
{
    if requests.len() == 0 {
        0
    } else {
        leaving(mode, requests.drop_last(), now) + if censor::lower_bounds(
            mode,
            requests.last(),
            now,
        ).len() > 0 {
            1nat
        } else {
            0nat
        }
    }
}

/// What a shard hands back when it ends.
#[derive(Debug)]
pub struct ShardOutput {
    /// Transport counters.
    pub counters: Counters,
    /// Lower bounds of the latencies of requests that never completed.
    pub censored: Censored,
    /// Deadline misses, fresh connections and request slip per interval.
    pub diagnostics: Intervals,
    /// When the shard stopped.
    pub end_ns: u64,
}

impl Shard {
    /// The interval that holds `t_ns`; times before the origin belong to the
    /// first.
    pub fn interval_index(&self, t_ns: u64) -> (r: u64)
        ensures
            r == diagnostics::interval_index(self.origin_ns, t_ns),
    {
        t_ns.saturating_sub(self.origin_ns) / SEC_NS
    }

    /// Records, for a request given up on at `now`, the elapsed time as a
    /// lower bound of every latency that was already due, in interval
    /// `index`.
    fn censor(&mut self, request: &Request, now: u64, index: u64)
        requires
            old(self).wf(),
            old(self).has_room(),
        ensures
            final(self).wf(),
            final(self).same_config(*old(self)),
            final(self).same_loop(*old(self)),
            final(self).diagnostics == old(self).diagnostics,
            final(self).ramp == old(self).ramp,
            final(self).slab == old(self).slab,
            final(self).after(*old(self), 0x1_0000_0001),
            ({
                let bounds = censor::lower_bounds(old(self).mode, *request, now);
                &&& old(self).censored.adds_all(index, bounds, final(self).censored)
                &&& final(self).net() == old(self).net().counting(
                    Counters {
                        censored_samples: (old(self).counters.censored_samples
                            + censor::bound_count(bounds)) as u64,
                        censored_requests: if bounds.len() > 0 {
                            (old(self).counters.censored_requests + 1) as u64
                        } else {
                            old(self).counters.censored_requests
                        },
                        ..old(self).counters
                    },
                )
            }),
    {
        let bounds = overdue(self.mode, request, now);
        proof {
            censor::law_bounds_are_few(self.mode, *request, now);
        }
        let total: u64 = censor::count_of(&bounds);
        self.censored.record_all(index, &bounds);
        self.counters.censored_samples += total;
        if bounds.len() > 0 {
            self.counters.censored_requests += 1;
        }
        self.events += total + 1;
        proof {
            assert forall|step: Option<u32>| #[trigger] self.open_in(step) == old(self).open_in(
                step,
            ) by {}
            lemma_still_tracks(*old(self), *self);
        }
    }

    /// Gives up on a request that has taken too long: its lower bounds go to
    /// the interval of `now`, and it is an error.
    pub fn expire(&mut self, slot: usize, now: u64)
        requires
            old(self).wf(),
            old(self).has_room(),
            old(self).pending is None,
            old(self).is_expired(slot as int, now),
        ensures
            final(self).wf(),
            final(self).same_parsers(*old(self), slot as int),
            final(self).same_config(*old(self)),
            final(self).same_loop(*old(self)),
            final(self).diagnostics == old(self).diagnostics,
            final(self).pending is None,
            final(self).after(*old(self), 0x1_0000_0003),
            ({
                let request = old(self).slab.conn(slot as int).request->Some_0;
                let bounds = censor::lower_bounds(old(self).mode, request, now);
                &&& old(self).censored.adds_all(
                    diagnostics::interval_index(old(self).origin_ns, now),
                    bounds,
                    final(self).censored,
                )
                &&& final(self).net() == old(self).net().counting(
                    Counters {
                        censored_samples: (old(self).counters.censored_samples
                            + censor::bound_count(bounds)) as u64,
                        censored_requests: if bounds.len() > 0 {
                            (old(self).counters.censored_requests + 1) as u64
                        } else {
                            old(self).counters.censored_requests
                        },
                        ..old(self).counters
                    },
                ).failed(slot, ErrorKind::Timeout, now, false)
                &&& request_done(old(self).ramp, final(self).ramp, request.step, None)
            }),
    {
        let request = match &self.slab.entries[slot] {
            Some(conn) => match conn.request {
                Some(request) => request,
                None => {
                    return ;
                },
            },
            None => {
                return ;
            },
        };
        let index: u64 = self.interval_index(now);
        self.censor(&request, now, index);
        self.settle_failure(slot, ErrorKind::Timeout, now);
    }

    /// Closes a connection and counts its request as failed.
    fn settle_failure(&mut self, slot: usize, kind: ErrorKind, now: u64)
        requires
            old(self).wf(),
            old(self).events < EVENT_LIMIT + 0x1_0000_0002,
            old(self).pending is None,
            old(self).slab.live(slot as int),
            old(self).slab.conn(slot as int).request is Some,
        ensures
            final(self).wf(),
            final(self).same_parsers(*old(self), slot as int),
            final(self).same_config(*old(self)),
            final(self).same_loop(*old(self)),
            same_evidence(*final(self), *old(self)),
            final(self).after(*old(self), 2),
            final(self).net() == old(self).net().failed(slot, kind, now, false),
            request_done(
                old(self).ramp,
                final(self).ramp,
                old(self).slab.conn(slot as int).request->Some_0.step,
                None,
            ),
    {
        self.close(slot);
        self.record_error(now, kind);
        self.finish_request(None);
    }

    /// `seg` is the next step to report and it is time to: its judging
    /// deadline has passed, or it has ended with all its sends made and
    /// done. Arrivals come in step order, so a later one means every send of
    /// this step was made.
    pub open spec fn step_is_due(self, seg: RateSegment, now: u64) -> bool {
        &&& self.ramp matches Some(t) && t.next_report < t.spec.steps@.len()
            && t.spec.steps@[t.next_report as int] == seg && (now >= time::capped(
            seg.end_ns + t.spec.judge_delay_ns,
        ) || (now >= seg.end_ns && (self.next is None || self.next->Some_0.step > seg.step)
            && t.so_far(seg.step).outstanding == 0))
    }

    /// The next step to report, once it is time to.
    pub fn due_step(&self, now: u64) -> (r: Option<RateSegment>)
        requires
            self.wf(),
        ensures
            match r {
                Some(seg) => self.step_is_due(seg, now),
                None => forall|seg: RateSegment| !#[trigger] self.step_is_due(seg, now),
            },
    {
        let ramp = match &self.ramp {
            Some(ramp) => ramp,
            None => {
                return None;
            },
        };
        if ramp.next_report >= ramp.spec.steps.len() {
            return None;
        }
        let seg = ramp.spec.steps[ramp.next_report];
        let all_sent = match self.next {
            None => true,
            Some(arrival) => arrival.step > seg.step,
        };
        if now >= seg.end_ns.saturating_add(ramp.spec.judge_delay_ns) || (now >= seg.end_ns
            && all_sent && ramp.outstanding(seg.step) == 0) {
            Some(seg)
        } else {
            None
        }
    }

    /// The next step to report after a stop at `stop_ns`: the later ones had
    /// not started by then.
    pub fn stopped_step(&self, stop_ns: u64) -> (r: Option<RateSegment>)
        requires
            self.wf(),
        ensures
            r == match self.ramp {
                Some(t) => if t.next_report < t.spec.steps@.len()
                    && t.spec.steps@[t.next_report as int].start_ns < stop_ns {
                    Some(t.spec.steps@[t.next_report as int])
                } else {
                    None
                },
                None => None,
            },
    {
        match &self.ramp {
            Some(ramp) => if ramp.next_report < ramp.spec.steps.len()
                && ramp.spec.steps[ramp.next_report].start_ns < stop_ns {
                Some(ramp.spec.steps[ramp.next_report])
            } else {
                None
            },
            None => None,
        }
    }

    /// Begins the report of the next step as of `now`. Requests of the step
    /// still open are censored at `now`.
    pub fn open_report(&mut self, now: u64) -> (r: StepReport)
        requires
            old(self).wf(),
            old(self).pending is None,
            old(self).ramp matches Some(t) && t.next_report < t.spec.steps@.len()
                && t.spec.steps@[t.next_report as int].step > 0 && !t.is_reported(
                t.spec.steps@[t.next_report as int].step,
            ),
        ensures
            final(self).wf(),
            final(self).same_config(*old(self)),
            final(self).same_loop(*old(self)),
            same_evidence(*final(self), *old(self)),
            final(self).slab == old(self).slab,
            final(self).events == old(self).events,
            final(self).net() == old(self).net(),
            ({
                let t = old(self).ramp->Some_0;
                let step = t.spec.steps@[t.next_report as int].step;
                let acc = t.so_far(step);
                let open = flight::in_flight(old(self).slab.entries@, Some(step));
                &&& r.wf(t.bounds)
                &&& r.step == step
                &&& r@.samples == acc.samples.add(
                    open_samples(old(self).slab.entries@, step, now, t.bounds.tuple()),
                )
                &&& r.requests == acc.requests
                &&& r.errors == acc.errors
                &&& r.censored == open
                &&& r.unsent == 0
                &&& r.max_emit_lag_ns == acc.max_emit_lag_ns
                &&& r.late_sends == acc.late_sends
                &&& final(self).ramp matches Some(u) && u.spec == t.spec && u.bounds == t.bounds
                    && u.next_report == t.next_report + 1 && u.acc(step) is None && (forall|s: u32|
                    s != step ==> #[trigger] u.acc(s) == t.acc(s))
            }),
    {
        broadcast use vstd::multiset::group_multiset_axioms;

        let ghost was = old(self).ramp->Some_0;
        let ghost mut left = was;
        let mut taken: Option<StepAcc> = None;
        if let Some(ramp) = &mut self.ramp {
            let step: u32 = ramp.spec.steps[ramp.next_report].step;
            let acc = ramp.take(step);
            proof {
                left = *ramp;
            }
            assert(ramp.spec.steps@.len() == ramp.spec.steps.len());
            ramp.next_report += 1;
            taken = Some(acc);
        }
        let ghost step = was.spec.steps@[was.next_report as int].step;
        proof {
            let now_ramp = self.ramp->Some_0;
            assert forall|s: u32| s > 0 implies {
                &&& now_ramp.is_reported(s) ==> (#[trigger] now_ramp.acc(s)) is None
                &&& !now_ramp.is_reported(s) ==> now_ramp.so_far(s).outstanding == self.open_in(
                    Some(s),
                )
                &&& acc_within(now_ramp.so_far(s), self.events as int)
            } by {
                assert(was.acc(s) is None || was.acc(s) is Some);
                assert(old(self).open_in(Some(s)) == self.open_in(Some(s)));
                if s == step {
                    assert(now_ramp.spec.steps@[was.next_report as int].step == s);
                    assert(now_ramp.is_reported(s));
                } else {
                    assert(left.acc(s) == was.acc(s));
                    assert(now_ramp.acc(s) == was.acc(s));
                    if now_ramp.is_reported(s) && !was.is_reported(s) {
                        let i = choose|i: int|
                            0 <= i < now_ramp.next_report && i < now_ramp.spec.steps@.len() && (
                            #[trigger] now_ramp.spec.steps@[i]).step == s;
                        assert(was.spec.steps@[i].step == s);
                    }
                    if was.is_reported(s) {
                        let i = choose|i: int|
                            0 <= i < was.next_report && i < was.spec.steps@.len() && (
                            #[trigger] was.spec.steps@[i]).step == s;
                        assert(now_ramp.spec.steps@[i].step == s);
                    }
                }
            }
            assert(left.acc(0) == was.acc(0));
            assert(now_ramp.acc(0) is None);
            assert forall|s: u32| s != step implies #[trigger] now_ramp.acc(s) == was.acc(s) by {
                assert(left.acc(s) == was.acc(s));
            }
            assert(now_ramp.acc(step) == left.acc(step));
            assert(was.acc(step) is None || was.acc(step) is Some);
            assert(old(self).open_in(Some(step)) == was.so_far(step).outstanding);
        }
        let mut report = match taken {
            Some(acc) => acc.report(),
            None => StepReport::nothing(0, self.censored.bounds),
        };
        let ghost acc = was.so_far(step);
        let ghost entries = self.slab.entries@;
        let mut i: usize = 0;
        assert(entries.take(0) =~= Seq::empty());
        assert(report@.samples =~= acc.samples.add(Multiset::empty()));
        while i < self.slab.entries.len()
            invariant
                i <= self.slab.entries@.len(),
                entries == self.slab.entries@,
                report.step == step,
                report.requests == acc.requests,
                report.errors == acc.errors,
                report.unsent == 0,
                report.max_emit_lag_ns == acc.max_emit_lag_ns,
                report.late_sends == acc.late_sends,
                acc.samples.len() <= acc.requests,
                acc.requests + acc.errors + flight::in_flight(entries, Some(step)) <= u64::MAX,
                report.censored == flight::in_flight(entries.take(i as int), Some(step)),
                open_samples(entries.take(i as int), step, now, was.bounds.tuple()).len()
                    == flight::in_flight(entries.take(i as int), Some(step)),
                report@.samples == acc.samples.add(
                    open_samples(entries.take(i as int), step, now, was.bounds.tuple()),
                ),
                histogram::histogram_bounds(report.latency) == was.bounds.tuple(),
            decreases self.slab.entries@.len() - i,
        {
            broadcast use vstd::multiset::group_multiset_axioms;

            proof {
                assert(entries.take(i + 1).drop_last() =~= entries.take(i as int));
                flight::lemma_in_flight_prefix(entries, i + 1, Some(step));
            }
            let mut sched: Option<u64> = None;
            if let Some(conn) = &self.slab.entries[i] {
                if let Some(request) = conn.request {
                    if request.step == report.step {
                        sched = Some(request.sched_ns);
                    }
                }
            }
            if let Some(sched_ns) = sched {
                let ghost before = report@.samples;
                record(&mut report.latency, now.saturating_sub(sched_ns));
                report.censored += 1;
                proof {
                    let b = histogram::histogram_bucket(
                        was.bounds.tuple(),
                        time::floored(now - sched_ns),
                    );
                    let rest = open_samples(
                        entries.take(i as int),
                        step,
                        now,
                        was.bounds.tuple(),
                    );
                    assert(acc.samples.add(rest).insert(b) =~= acc.samples.add(rest.insert(b)));
                }
            }
            i += 1;
        }
        assert(entries.take(i as int) =~= entries);
        report
    }

    /// Drops the next scheduled request if it belongs to the step being
    /// reported, or to one before it, and was due before `cutoff`: a send of
    /// the step counts as unsent. The request after it is then to be handed
    /// in with [`Shard::set_next`], and looked at in the same way.
    pub fn drop_next(&mut self, report: &mut StepReport, now: u64, cutoff: u64) -> (r: bool)
        requires
            old(self).wf(),
            old(report)@.countable(),
            old(report)@.sends() < u64::MAX,
            old(report)@.late_sends + old(report)@.unsent < u64::MAX,
        ensures
            final(self).wf(),
            final(self).same_config(*old(self)),
            same_evidence(*final(self), *old(self)),
            final(self).ramp == old(self).ramp,
            final(self).slab == old(self).slab,
            final(self).events == old(self).events,
            final(self).net() == old(self).net(),
            r == (old(self).next matches Some(a) && a.step <= old(report).step && a.sched_ns
                < cutoff),
            final(self).same_loop(
                Shard {
                    next: if r {
                        None
                    } else {
                        old(self).next
                    },
                    ..*old(self)
                },
            ),
            histogram::histogram_bounds(final(report).latency) == histogram::histogram_bounds(
                old(report).latency,
            ),
            final(report)@ == if r && old(self).next->Some_0.step == old(report).step {
                Report {
                    samples: old(report)@.samples.insert(
                        histogram::histogram_bucket(
                            histogram::histogram_bounds(old(report).latency),
                            time::floored(now - old(self).next->Some_0.sched_ns),
                        ),
                    ),
                    censored: old(report)@.censored + 1,
                    unsent: old(report)@.unsent + 1,
                    ..old(report)@
                }
            } else {
                old(report)@
            },
    {
        let arrival = match self.next {
            Some(arrival) => arrival,
            None => {
                return false;
            },
        };
        if arrival.step > report.step || arrival.sched_ns >= cutoff {
            return false;
        }
        if arrival.step == report.step {
            record(&mut report.latency, now.saturating_sub(arrival.sched_ns));
            report.unsent += 1;
            report.censored += 1;
        }
        self.next = None;
        proof {
            assert forall|step: Option<u32>| #[trigger] self.open_in(step) == old(self).open_in(
                step,
            ) by {}
            lemma_still_tracks(*old(self), *self);
        }
        true
    }

    /// Ends the shard: the requests still open are censored at the end of
    /// the run, and their bounds join its last interval.
    pub fn finish(self) -> (r: ShardOutput)
        requires
            self.wf(),
            self.events + censor::bound_count(
                all_bounds(self.mode, requests_of(self.slab.entries@), self.end_ns),
            ) + self.slab.entries@.len() <= u64::MAX,
        ensures
            r.end_ns == self.end_ns,
            r.diagnostics == self.diagnostics.intervals,
            ({
                let open = requests_of(self.slab.entries@);
                let bounds = all_bounds(self.mode, open, self.end_ns);
                &&& self.censored.adds_all(
                    diagnostics::interval_index(
                        self.origin_ns,
                        time::floored(self.end_ns - 1),
                    ),
                    bounds,
                    r.censored,
                )
                &&& r.counters == (Counters {
                    open_at_end: (self.counters.open_at_end + open.len()) as u64,
                    censored_requests: (self.counters.censored_requests + leaving(
                        self.mode,
                        open,
                        self.end_ns,
                    )) as u64,
                    censored_samples: (self.counters.censored_samples + censor::bound_count(
                        bounds,
                    )) as u64,
                    ..self.counters
                })
            }),
    {
        let end_ns: u64 = self.end_ns;
        let last: u64 = self.interval_index(end_ns.saturating_sub(1));
        let mut counters = self.counters;
        let mut left: Vec<LowerBound> = Vec::new();
        let ghost entries = self.slab.entries@;
        let ghost all = all_bounds(self.mode, requests_of(entries), end_ns);
        let mut i: usize = 0;
        assert(entries.take(0) =~= Seq::empty());
        while i < self.slab.entries.len()
            invariant
                i <= self.slab.entries@.len(),
                self.wf(),
                end_ns == self.end_ns,
                entries == self.slab.entries@,
                all == all_bounds(self.mode, requests_of(entries), end_ns),
                self.events + censor::bound_count(all) + entries.len() <= u64::MAX,
                left@ == all_bounds(self.mode, requests_of(entries.take(i as int)), end_ns),
                requests_of(entries.take(i as int)).len() <= i,
                leaving(self.mode, requests_of(entries.take(i as int)), end_ns)
                    <= requests_of(entries.take(i as int)).len(),
                counters == (Counters {
                    open_at_end: (self.counters.open_at_end + requests_of(
                        entries.take(i as int),
                    ).len()) as u64,
                    censored_requests: (self.counters.censored_requests + leaving(
                        self.mode,
                        requests_of(entries.take(i as int)),
                        end_ns,
                    )) as u64,
                    ..self.counters
                }),
            decreases self.slab.entries@.len() - i,
        {
            proof {
                assert(entries.take(i + 1).drop_last() =~= entries.take(i as int));
                censor::lemma_count_prefix(all, 0);
                let done = requests_of(entries.take(i as int));
                if flight::carries(entries[i as int], None) {
                    let request = entries[i as int]->Some_0.request->Some_0;
                    assert(done.push(request).drop_last() =~= done);
                }
            }
            if let Some(conn) = &self.slab.entries[i] {
                if let Some(request) = conn.request {
                    let mut bounds = overdue(self.mode, &request, end_ns);
                    counters.open_at_end += 1;
                    if bounds.len() > 0 {
                        counters.censored_requests += 1;
                    }
                    left.append(&mut bounds);
                }
            }
            i += 1;
        }
        assert(entries.take(i as int) =~= entries);
        let total: u64 = censor::count_of(&left);
        counters.censored_samples += total;
        let mut censored = self.censored;
        censored.record_all(last, &left);
        ShardOutput { counters, censored, diagnostics: self.diagnostics.finish(), end_ns }
    }
}

/// What is left of the requests and errors once the requests scheduled and
/// the retries are taken off: the errors that belong to no request.
pub open spec fn unaccounted(net: Net) -> int {
    net.open + net.requests + net.errors - net.counters.stale_retries
        - net.counters.requests_scheduled
}

/// Every scheduled request is open, completed or failed, and exactly one of
/// these: no event loses a request or ends it twice. A retry is an error of
/// its own that ends no request.
pub proof fn law_every_request_is_accounted_for(
    net: Net,
    slot: usize,
    request: Request,
    mode: Mode,
    status: u16,
    kind: ErrorKind,
    at_ns: u64,
    flag: bool,
)
    requires
        net.counters.requests_scheduled < u64::MAX,
        net.counters.stale_retries < u64::MAX,
    ensures
        unaccounted(net.started(request)) == unaccounted(net),
        unaccounted(net.reused(slot, at_ns)) == unaccounted(net),
        unaccounted(net.found_dead(slot, at_ns)) == unaccounted(net),
        unaccounted(net.attempted(at_ns).one_more_connection().opened(request)) == unaccounted(net),
        unaccounted(net.attempted(at_ns).errored(at_ns, ErrorKind::Connect).settled())
            == unaccounted(net),
        unaccounted(net.completed(slot, mode, status, at_ns, flag)) == unaccounted(net),
        unaccounted(net.failed(slot, kind, at_ns, flag)) == unaccounted(net),
        unaccounted(net.idle_lost(slot)) == unaccounted(net),
        unaccounted(net.closed(slot).errored(at_ns, ErrorKind::Unsolicited)) == unaccounted(net)
            + 1,
{
}

/// A request is retried at most once: one that was retried is not stale
/// again.
pub proof fn law_a_request_is_retried_at_most_once(conn: Connection, now: u64)
    requires
        conn.request is Some,
        conn.request->Some_0.retried,
    ensures
        !is_stale(conn, now),
{
}

/// A request on a newly opened connection is never retried.
pub proof fn law_fresh_connections_are_not_stale(conn: Connection, now: u64)
    requires
        conn.served == 0,
    ensures
        !is_stale(conn, now),
{
}

/// A retried request keeps its scheduled time, stream id and step, so its
/// latency includes the failed attempt.
pub proof fn law_a_retry_keeps_the_scheduled_time(
    net: Net,
    slot: usize,
    kind: ErrorKind,
    now: u64,
)
    requires
        net.conn(slot as int).request is Some,
    ensures
        ({
            let request = net.conn(slot as int).request->Some_0;
            let again = net.failed(slot, kind, now, true).pending->Some_0;
            &&& again.sched_ns == request.sched_ns
            &&& again.sid == request.sid
            &&& again.step == request.step
            &&& again.chunks == request.chunks
            &&& again.retried
        }),
{
}

/// The lag of a send is recorded once per request: a retry records none.
pub proof fn law_the_emit_lag_is_recorded_once(net: Net, t_emit: u64)
    requires
        net.pending is Some,
    ensures
        net.pending->Some_0.retried ==> net.attempted(t_emit).records == net.records,
        !net.pending->Some_0.retried ==> net.attempted(t_emit).records == net.records.push(
            emit_span(net.pending->Some_0, t_emit),
        ),
{
}

/// What the end of a request of `step` does to a ramp.
pub open spec fn request_done(
    before: Option<RampTracker>,
    after: Option<RampTracker>,
    step: u32,
    latency_ns: Option<u64>,
) -> bool {
    match before {
        None => after is None,
        Some(t) => after matches Some(u) && {
            &&& u.same_plan(t)
            &&& forall|s: u32| #[trigger]
                u.acc(s) == if s != step {
                    t.acc(s)
                } else {
                    match t.acc(s) {
                        None => None,
                        Some(acc) => Some(
                            acc.done(
                                match latency_ns {
                                    Some(ns) => Some(
                                        histogram::histogram_bucket(t.bounds.tuple(), ns),
                                    ),
                                    None => None,
                                },
                            ),
                        ),
                    }
                }
        },
    }
}

/// The last place of `v` in `s` is `at`, or `v` is not in `s`.
proof fn lemma_without(s: Seq<usize>, v: usize, at: int)
    requires
        -1 <= at < s.len(),
        at >= 0 ==> s[at] == v,
        forall|k: int| at < k < s.len() ==> #[trigger] s[k] != v,
    ensures
        without(s, v) == if at >= 0 {
            s.remove(at)
        } else {
            s
        },
    decreases s.len(),
{
    if s.len() > 0 {
        if at == s.len() - 1 {
            assert(s.remove(at) =~= s.drop_last());
        } else {
            assert(s.last() == s[s.len() - 1]);
            lemma_without(s.drop_last(), v, at);
            if at >= 0 {
                assert(s.drop_last().remove(at).push(s.last()) =~= s.remove(at));
            } else {
                assert(s.drop_last().push(s.last()) =~= s);
            }
        }
    }
}

/// The idle connections stay in order when a connection is closed.
proof fn lemma_idle_after_close(
    before: Slab,
    idle: Seq<usize>,
    slot: usize,
    at: int,
    after: Slab,
)
    requires
        idle_ok(before, idle),
        -1 <= at < idle.len(),
        at >= 0 ==> idle[at] == slot,
        at < 0 ==> not_idle(idle, slot),
        forall|s: int| s != slot ==> #[trigger] after.live(s) == before.live(s),
        forall|s: int|
            s != slot && #[trigger] before.live(s) ==> after.conn(s) == before.conn(s),
    ensures
        idle_ok(
            after,
            if at >= 0 {
                idle.remove(at)
            } else {
                idle
            },
        ),
{
    let rest = if at >= 0 {
        idle.remove(at)
    } else {
        idle
    };
    assert forall|i: int| 0 <= i < rest.len() implies after.live((#[trigger] rest[i]) as int)
        && after.conn(rest[i] as int).request is None by {
        let was = if at >= 0 && i >= at {
            i + 1
        } else {
            i
        };
        assert(rest[i] == idle[was]);
        if at >= 0 {
            if was < at {
                assert(idle[was] != idle[at]);
            } else {
                assert(idle[at] != idle[was]);
            }
        }
        assert(before.live(idle[was] as int));
    }
    assert forall|i: int, j: int| 0 <= i < j < rest.len() implies #[trigger] rest[i]
        != #[trigger] rest[j] by {
        let a = if at >= 0 && i >= at {
            i + 1
        } else {
            i
        };
        let b = if at >= 0 && j >= at {
            j + 1
        } else {
            j
        };
        assert(idle[a] != idle[b]);
    }
}

} // verus!
