//! Server-wide counters exposed by `GET /__bench/stats`.
//!
//! Every shard owns one [`ShardCounters`] block. The stats endpoint sums all
//! blocks. The reset endpoint never writes a counter's total: it records a
//! baseline per counter that later snapshots subtract.
//!
//! Each shard also keeps a histogram of its read lag: the time from the
//! kernel receiving the last segment of a request to the shard parsing it.
//! The mock takes t0 at parse time, so this lag reaches the client's TTFT
//! without showing up in any marker; the histogram is what makes it visible.

use crate::histogram;
use crate::histogram::{
    clear, max_value, merge, new_histogram, percentile, record, sample_count, Bounds, Latencies,
};
use vstd::multiset::Multiset;
use vstd::prelude::*;

verus! {

/// A monotonic counter that can be restarted from zero.
#[derive(Debug, Clone, Copy, PartialEq, Eq, Structural)]
pub struct Counter {
    /// Total since start.
    pub value: u64,
    /// `value` at the last reset.
    pub baseline: u64,
}

impl Counter {
    /// The counter after `n` more events; totals wrap around.
    pub open spec fn plus(self, n: u64) -> Counter {
        Counter {
            value: if self.value + n > u64::MAX {
                (self.value + n - 0x1_0000_0000_0000_0000) as u64
            } else {
                (self.value + n) as u64
            },
            baseline: self.baseline,
        }
    }

    /// Count since the last reset.
    pub open spec fn count(self) -> nat {
        if self.value >= self.baseline {
            (self.value - self.baseline) as nat
        } else {
            0
        }
    }

    /// The counter right after a reset.
    pub open spec fn restarted(self) -> Counter {
        Counter { value: self.value, baseline: self.value }
    }

    /// A counter at zero.
    pub fn new() -> (r: Self)
        ensures
            r == (Counter { value: 0, baseline: 0 }),
    {
        Counter { value: 0, baseline: 0 }
    }

    /// Counts `n` events.
    pub fn add(&mut self, n: u64)
        ensures
            *final(self) == old(self).plus(n),
    {
        self.value = self.value.wrapping_add(n);
    }

    /// Total since start, unaffected by resets.
    pub fn total(&self) -> (r: u64)
        ensures
            r == self.value,
    {
        self.value
    }

    /// Count since the last reset.
    pub fn get(&self) -> (r: u64)
        ensures
            r == self.count(),
    {
        self.value.saturating_sub(self.baseline)
    }

    /// Restarts the count from zero.
    pub fn reset(&mut self)
        ensures
            *final(self) == old(self).restarted(),
    {
        self.baseline = self.value;
    }
}

/// Error categories counted separately.
#[derive(Debug, Clone, Copy, PartialEq, Eq, Structural)]
pub enum ErrorKind {
    /// Unparseable request head, bad framing or unsupported HTTP version.
    BadRequest,
    /// The request head exceeds the size or header-count limit.
    HeadTooLarge,
    /// The request body exceeds the size limit.
    BodyTooLarge,
    /// A `bench:v1;` directive is present but invalid.
    BadDirective,
    /// Unknown path.
    NotFound,
    /// Known path, wrong method.
    MethodNotAllowed,
    /// TLS handshake or record failure.
    Tls,
    /// Socket error other than a peer reset during a response.
    Io,
    /// The client went away while a response was still scheduled.
    Aborted,
    /// `accept` failed (for example `EMFILE`).
    Accept,
}

/// What a counter of a shard counts.
#[derive(Debug, Clone, Copy, PartialEq, Eq, Structural)]
pub enum Event {
    /// A connection was accepted.
    Accepted,
    /// A complete API request (not a `/__bench/*` request) was received.
    Request,
    /// A connection was closed, for whatever reason.
    Closed,
    /// A streaming response was started.
    StreamStarted,
    /// A streaming response ended, completed or aborted.
    StreamFinished,
    /// A content chunk was written.
    Chunk,
    /// A write left data pending because the socket would block.
    WriteBlocked,
    /// The realtime-to-monotonic offset jumped.
    ClockStep,
    /// An error occurred.
    Error(ErrorKind),
}

/// Counters of one shard.
#[derive(Debug)]
pub struct ShardCounters {
    /// Accepted connections.
    pub accepts: Counter,
    /// Complete API requests.
    pub requests: Counter,
    /// Closed connections.
    pub closed: Counter,
    /// Streaming responses started.
    pub streams_started: Counter,
    /// Streaming responses ended.
    pub streams_finished: Counter,
    /// Content chunks written.
    pub chunks: Counter,
    /// Writes that left data pending.
    pub write_blocked: Counter,
    /// See [`ErrorKind::BadRequest`].
    pub bad_request: Counter,
    /// See [`ErrorKind::HeadTooLarge`].
    pub head_too_large: Counter,
    /// See [`ErrorKind::BodyTooLarge`].
    pub body_too_large: Counter,
    /// See [`ErrorKind::BadDirective`].
    pub bad_directive: Counter,
    /// See [`ErrorKind::NotFound`].
    pub not_found: Counter,
    /// See [`ErrorKind::MethodNotAllowed`].
    pub method_not_allowed: Counter,
    /// See [`ErrorKind::Tls`].
    pub tls: Counter,
    /// See [`ErrorKind::Io`].
    pub io: Counter,
    /// See [`ErrorKind::Aborted`].
    pub aborted: Counter,
    /// See [`ErrorKind::Accept`].
    pub accept: Counter,
    /// Jumps of the realtime clock.
    pub clock_steps: Counter,
    /// Read lags.
    pub read_lag: Latencies,
}

impl ShardCounters {
    /// The block with one more `event` counted and nothing else changed.
    pub open spec fn counting(self, event: Event) -> ShardCounters {
        match event {
            Event::Accepted => ShardCounters { accepts: self.accepts.plus(1), ..self },
            Event::Request => ShardCounters { requests: self.requests.plus(1), ..self },
            Event::Closed => ShardCounters { closed: self.closed.plus(1), ..self },
            Event::StreamStarted => ShardCounters { streams_started: self.streams_started.plus(1), ..self },
            Event::StreamFinished => ShardCounters { streams_finished: self.streams_finished.plus(1), ..self },
            Event::Chunk => ShardCounters { chunks: self.chunks.plus(1), ..self },
            Event::WriteBlocked => ShardCounters { write_blocked: self.write_blocked.plus(1), ..self },
            Event::ClockStep => ShardCounters { clock_steps: self.clock_steps.plus(1), ..self },
            Event::Error(ErrorKind::BadRequest) => ShardCounters {
                bad_request: self.bad_request.plus(1),
                ..self
            },
            Event::Error(ErrorKind::HeadTooLarge) => ShardCounters {
                head_too_large: self.head_too_large.plus(1),
                ..self
            },
            Event::Error(ErrorKind::BodyTooLarge) => ShardCounters {
                body_too_large: self.body_too_large.plus(1),
                ..self
            },
            Event::Error(ErrorKind::BadDirective) => ShardCounters {
                bad_directive: self.bad_directive.plus(1),
                ..self
            },
            Event::Error(ErrorKind::NotFound) => ShardCounters {
                not_found: self.not_found.plus(1),
                ..self
            },
            Event::Error(ErrorKind::MethodNotAllowed) => ShardCounters {
                method_not_allowed: self.method_not_allowed.plus(1),
                ..self
            },
            Event::Error(ErrorKind::Tls) => ShardCounters {
                tls: self.tls.plus(1),
                ..self
            },
            Event::Error(ErrorKind::Io) => ShardCounters {
                io: self.io.plus(1),
                ..self
            },
            Event::Error(ErrorKind::Aborted) => ShardCounters {
                aborted: self.aborted.plus(1),
                ..self
            },
            Event::Error(ErrorKind::Accept) => ShardCounters {
                accept: self.accept.plus(1),
                ..self
            },
        }
    }

    /// The counter of an event.
    pub open spec fn of(self, event: Event) -> Counter {
        match event {
            Event::Accepted => self.accepts,
            Event::Request => self.requests,
            Event::Closed => self.closed,
            Event::StreamStarted => self.streams_started,
            Event::StreamFinished => self.streams_finished,
            Event::Chunk => self.chunks,
            Event::WriteBlocked => self.write_blocked,
            Event::ClockStep => self.clock_steps,
            Event::Error(ErrorKind::BadRequest) => self.bad_request,
            Event::Error(ErrorKind::HeadTooLarge) => self.head_too_large,
            Event::Error(ErrorKind::BodyTooLarge) => self.body_too_large,
            Event::Error(ErrorKind::BadDirective) => self.bad_directive,
            Event::Error(ErrorKind::NotFound) => self.not_found,
            Event::Error(ErrorKind::MethodNotAllowed) => self.method_not_allowed,
            Event::Error(ErrorKind::Tls) => self.tls,
            Event::Error(ErrorKind::Io) => self.io,
            Event::Error(ErrorKind::Aborted) => self.aborted,
            Event::Error(ErrorKind::Accept) => self.accept,
        }
    }

    /// Streams started and not ended. The gauge comes from totals, which
    /// resets do not touch.
    pub open spec fn active(self) -> nat {
        if self.streams_started.value >= self.streams_finished.value {
            (self.streams_started.value - self.streams_finished.value) as nat
        } else {
            0
        }
    }

    /// Every counter at zero and no read lag sampled.
    pub open spec fn is_zero(self) -> bool {
        &&& forall|event: Event| #[trigger]
            self.of(event) == (Counter { value: 0, baseline: 0 })
        &&& histogram::histogram_samples(self.read_lag) == Multiset::<u64>::empty()
    }

    /// The block right after a reset of `before`.
    pub open spec fn restarts(self, before: ShardCounters) -> bool {
        &&& forall|event: Event| #[trigger] self.of(event) == before.of(event).restarted()
        &&& histogram::histogram_samples(self.read_lag) == Multiset::<u64>::empty()
        &&& histogram::histogram_bounds(self.read_lag) == histogram::histogram_bounds(
            before.read_lag,
        )
    }

    /// Counters at zero, read lags sampled with these bounds.
    pub fn new(bounds: Bounds) -> (r: Self)
        requires
            bounds.valid(),
        ensures
            r.is_zero(),
            histogram::histogram_bounds(r.read_lag) == bounds.tuple(),
    {
        ShardCounters {
            accepts: Counter::new(),
            requests: Counter::new(),
            closed: Counter::new(),
            streams_started: Counter::new(),
            streams_finished: Counter::new(),
            chunks: Counter::new(),
            write_blocked: Counter::new(),
            bad_request: Counter::new(),
            head_too_large: Counter::new(),
            body_too_large: Counter::new(),
            bad_directive: Counter::new(),
            not_found: Counter::new(),
            method_not_allowed: Counter::new(),
            tls: Counter::new(),
            io: Counter::new(),
            aborted: Counter::new(),
            accept: Counter::new(),
            clock_steps: Counter::new(),
            read_lag: new_histogram(bounds),
        }
    }

    /// A connection was accepted.
    pub fn accepted(&mut self)
        ensures
            *final(self) == old(self).counting(Event::Accepted),
    {
        self.accepts.add(1);
    }

    /// A complete API request (not a `/__bench/*` request) was received.
    pub fn request(&mut self)
        ensures
            *final(self) == old(self).counting(Event::Request),
    {
        self.requests.add(1);
    }

    /// A connection was closed, for whatever reason.
    pub fn connection_closed(&mut self)
        ensures
            *final(self) == old(self).counting(Event::Closed),
    {
        self.closed.add(1);
    }

    /// A streaming response was started.
    pub fn stream_started(&mut self)
        ensures
            *final(self) == old(self).counting(Event::StreamStarted),
    {
        self.streams_started.add(1);
    }

    /// A streaming response ended, completed or aborted.
    pub fn stream_finished(&mut self)
        ensures
            *final(self) == old(self).counting(Event::StreamFinished),
    {
        self.streams_finished.add(1);
    }

    /// A content chunk was written.
    pub fn chunk(&mut self)
        ensures
            *final(self) == old(self).counting(Event::Chunk),
    {
        self.chunks.add(1);
    }

    /// A write left data pending because the socket would block.
    pub fn write_blocked(&mut self)
        ensures
            *final(self) == old(self).counting(Event::WriteBlocked),
    {
        self.write_blocked.add(1);
    }

    /// These counters are `before` with one more read lag, in the bucket of
    /// its value, unless the histogram is full.
    pub open spec fn has_lag_of(self, before: ShardCounters, lag_ns: u64) -> bool {
        &&& self == (ShardCounters { read_lag: self.read_lag, ..before })
        &&& histogram::histogram_bounds(self.read_lag) == histogram::histogram_bounds(
            before.read_lag,
        )
        &&& histogram::has_room(before.read_lag, 1) ==> histogram::histogram_samples(self.read_lag)
            == histogram::histogram_samples(before.read_lag).insert(
            histogram::histogram_bucket(histogram::histogram_bounds(before.read_lag), lag_ns),
        )
    }

    /// A request was parsed `lag_ns` after the kernel received its last
    /// bytes.
    pub fn read_lag(&mut self, lag_ns: u64)
        ensures
            final(self).has_lag_of(*old(self), lag_ns),
    {
        record(&mut self.read_lag, lag_ns);
    }

    /// The realtime-to-monotonic offset used for read lags jumped, so lags
    /// recorded around that moment are off by the jump.
    pub fn clock_step(&mut self)
        ensures
            *final(self) == old(self).counting(Event::ClockStep),
    {
        self.clock_steps.add(1);
    }

    /// An error of the given kind occurred.
    pub fn error(&mut self, kind: ErrorKind)
        ensures
            *final(self) == old(self).counting(Event::Error(kind)),
    {
        match kind {
            ErrorKind::BadRequest => self.bad_request.add(1),
            ErrorKind::HeadTooLarge => self.head_too_large.add(1),
            ErrorKind::BodyTooLarge => self.body_too_large.add(1),
            ErrorKind::BadDirective => self.bad_directive.add(1),
            ErrorKind::NotFound => self.not_found.add(1),
            ErrorKind::MethodNotAllowed => self.method_not_allowed.add(1),
            ErrorKind::Tls => self.tls.add(1),
            ErrorKind::Io => self.io.add(1),
            ErrorKind::Aborted => self.aborted.add(1),
            ErrorKind::Accept => self.accept.add(1),
        }
    }

    /// The counter of an event.
    fn counter(&self, event: Event) -> (r: Counter)
        ensures
            r == self.of(event),
    {
        match event {
            Event::Accepted => self.accepts,
            Event::Request => self.requests,
            Event::Closed => self.closed,
            Event::StreamStarted => self.streams_started,
            Event::StreamFinished => self.streams_finished,
            Event::Chunk => self.chunks,
            Event::WriteBlocked => self.write_blocked,
            Event::ClockStep => self.clock_steps,
            Event::Error(ErrorKind::BadRequest) => self.bad_request,
            Event::Error(ErrorKind::HeadTooLarge) => self.head_too_large,
            Event::Error(ErrorKind::BodyTooLarge) => self.body_too_large,
            Event::Error(ErrorKind::BadDirective) => self.bad_directive,
            Event::Error(ErrorKind::NotFound) => self.not_found,
            Event::Error(ErrorKind::MethodNotAllowed) => self.method_not_allowed,
            Event::Error(ErrorKind::Tls) => self.tls,
            Event::Error(ErrorKind::Io) => self.io,
            Event::Error(ErrorKind::Aborted) => self.aborted,
            Event::Error(ErrorKind::Accept) => self.accept,
        }
    }

    /// Restarts every counter and the read-lag histogram from zero.
    pub fn reset(&mut self)
        ensures
            final(self).restarts(*old(self)),
    {
        self.accepts.reset();
        self.requests.reset();
        self.closed.reset();
        self.streams_started.reset();
        self.streams_finished.reset();
        self.chunks.reset();
        self.write_blocked.reset();
        self.bad_request.reset();
        self.head_too_large.reset();
        self.body_too_large.reset();
        self.bad_directive.reset();
        self.not_found.reset();
        self.method_not_allowed.reset();
        self.tls.reset();
        self.io.reset();
        self.aborted.reset();
        self.accept.reset();
        self.clock_steps.reset();
        clear(&mut self.read_lag);
    }

    /// Streaming responses currently in progress.
    pub fn active_streams(&self) -> (r: u64)
        ensures
            r == self.active(),
    {
        self.streams_started.value.saturating_sub(self.streams_finished.value)
    }
}

/// The sum of one counter over all shards.
pub open spec fn total(shards: Seq<ShardCounters>, event: Event) -> nat
    decreases shards.len(),
{
    if shards.len() == 0 {
        0
    } else {
        total(shards.drop_last(), event) + shards.last().of(event).count()
    }
}

/// The streams in progress on all shards.
pub open spec fn total_active(shards: Seq<ShardCounters>) -> nat
    decreases shards.len(),
{
    if shards.len() == 0 {
        0
    } else {
        total_active(shards.drop_last()) + shards.last().active()
    }
}

/// The read lags sampled by all shards.
pub open spec fn all_lags(shards: Seq<ShardCounters>) -> Multiset<u64>
    decreases shards.len(),
{
    if shards.len() == 0 {
        Multiset::empty()
    } else {
        all_lags(shards.drop_last()).add(histogram::histogram_samples(shards.last().read_lag))
    }
}

proof fn lemma_total_grows(shards: Seq<ShardCounters>, n: int, event: Event)
    requires
        0 <= n <= shards.len(),
    ensures
        total(shards.take(n), event) <= total(shards, event),
    decreases shards.len() - n,
{
    if n < shards.len() {
        assert(shards.take(n + 1).drop_last() =~= shards.take(n));
        lemma_total_grows(shards, n + 1, event);
    } else {
        assert(shards.take(n) =~= shards);
    }
}

proof fn lemma_active_grows(shards: Seq<ShardCounters>, n: int)
    requires
        0 <= n <= shards.len(),
    ensures
        total_active(shards.take(n)) <= total_active(shards),
    decreases shards.len() - n,
{
    if n < shards.len() {
        assert(shards.take(n + 1).drop_last() =~= shards.take(n));
        lemma_active_grows(shards, n + 1);
    } else {
        assert(shards.take(n) =~= shards);
    }
}

proof fn lemma_lags_grow(shards: Seq<ShardCounters>, n: int)
    requires
        0 <= n <= shards.len(),
    ensures
        all_lags(shards.take(n)).len() <= all_lags(shards).len(),
    decreases shards.len() - n,
{
    broadcast use vstd::multiset::group_multiset_axioms;

    if n < shards.len() {
        assert(shards.take(n + 1).drop_last() =~= shards.take(n));
        lemma_lags_grow(shards, n + 1);
    } else {
        assert(shards.take(n) =~= shards);
    }
}

/// What a snapshot is given of the read lags of all shards: the quantile
/// between whole percents, in nanoseconds, and their encoded distribution.
#[derive(Debug)]
pub struct LagSummary {
    /// 99.9th percentile.
    pub p999_ns: u64,
    /// The whole distribution, encoded.
    pub histogram: String,
}

/// Read-lag distribution inside a [`Snapshot`], in nanoseconds.
///
/// A sample is taken for every request that became complete on a receive
/// carrying a kernel timestamp (`SO_TIMESTAMPNS`, Linux only). A request
/// pipelined behind another response is not sampled: its wait is set by
/// that response, not by the shard.
#[derive(Debug)]
pub struct ReadLagSnapshot {
    /// Number of samples.
    pub samples: u64,
    /// Median.
    pub p50_ns: u64,
    /// 99th percentile.
    pub p99_ns: u64,
    /// 99.9th percentile.
    pub p999_ns: u64,
    /// Largest sample.
    pub max_ns: u64,
    /// Jumps of the realtime clock seen while converting kernel timestamps;
    /// samples taken around a jump are off by its size.
    pub clock_steps: u64,
    /// The whole distribution, encoded.
    pub histogram: String,
}

/// Counters of one shard inside a [`Snapshot`].
#[derive(Debug, Clone, Copy, PartialEq, Eq, Structural)]
pub struct ShardSnapshot {
    /// Accepted connections.
    pub accepts: u64,
    /// Complete API requests received.
    pub requests: u64,
    /// Content chunks written.
    pub chunks: u64,
    /// Streaming responses currently in progress.
    pub active_streams: u64,
    /// Writes that could not be completed immediately.
    pub write_blocked: u64,
    /// Read-lag samples taken.
    pub read_lag_samples: u64,
}

/// Error counters inside a [`Snapshot`].
#[derive(Debug, Clone, Copy, PartialEq, Eq, Structural)]
pub struct ErrorSnapshot {
    /// See [`ErrorKind::BadRequest`].
    pub bad_request: u64,
    /// See [`ErrorKind::HeadTooLarge`].
    pub head_too_large: u64,
    /// See [`ErrorKind::BodyTooLarge`].
    pub body_too_large: u64,
    /// See [`ErrorKind::BadDirective`].
    pub bad_directive: u64,
    /// See [`ErrorKind::NotFound`].
    pub not_found: u64,
    /// See [`ErrorKind::MethodNotAllowed`].
    pub method_not_allowed: u64,
    /// See [`ErrorKind::Tls`].
    pub tls: u64,
    /// See [`ErrorKind::Io`].
    pub io: u64,
    /// See [`ErrorKind::Aborted`].
    pub aborted: u64,
    /// See [`ErrorKind::Accept`].
    pub accept: u64,
}

/// Body of `GET /__bench/stats`.
#[derive(Debug)]
pub struct Snapshot {
    /// Accepted connections.
    pub accepts: u64,
    /// Complete API requests received (`/__bench/*` excluded).
    pub requests: u64,
    /// Closed connections.
    pub closed: u64,
    /// Streaming responses currently in progress.
    pub active_streams: u64,
    /// Streaming responses started since the last reset.
    pub streams_started: u64,
    /// Content chunks written.
    pub chunks: u64,
    /// Writes that could not be completed immediately.
    pub write_blocked: u64,
    /// Delay from the kernel receiving a request to the mock parsing it.
    pub read_lag: ReadLagSnapshot,
    /// Per-shard breakdown, in shard order. `SO_REUSEPORT` spreads
    /// connections by a hash of their addresses, so with few long-lived
    /// connections the load of the shards can differ a lot.
    pub shards: Vec<ShardSnapshot>,
    /// Error counters by category.
    pub errors: ErrorSnapshot,
}

impl ShardSnapshot {
    /// The snapshot of one block.
    pub open spec fn shows(self, shard: ShardCounters) -> bool {
        &&& self.accepts == shard.accepts.count()
        &&& self.requests == shard.requests.count()
        &&& self.chunks == shard.chunks.count()
        &&& self.active_streams == shard.active()
        &&& self.write_blocked == shard.write_blocked.count()
        &&& histogram::has_room(shard.read_lag, 0) ==> self.read_lag_samples
            == histogram::histogram_samples(shard.read_lag).len()
    }
}

impl ErrorSnapshot {
    /// The number of errors of a kind.
    pub open spec fn of(self, kind: ErrorKind) -> u64 {
        match kind {
            ErrorKind::BadRequest => self.bad_request,
            ErrorKind::HeadTooLarge => self.head_too_large,
            ErrorKind::BodyTooLarge => self.body_too_large,
            ErrorKind::BadDirective => self.bad_directive,
            ErrorKind::NotFound => self.not_found,
            ErrorKind::MethodNotAllowed => self.method_not_allowed,
            ErrorKind::Tls => self.tls,
            ErrorKind::Io => self.io,
            ErrorKind::Aborted => self.aborted,
            ErrorKind::Accept => self.accept,
        }
    }
}

impl Snapshot {
    /// The snapshot of these blocks, with what is given of their read lags.
    pub open spec fn shows(self, shards: Seq<ShardCounters>, lag: LagSummary) -> bool {
        &&& self.accepts == total(shards, Event::Accepted)
        &&& self.requests == total(shards, Event::Request)
        &&& self.closed == total(shards, Event::Closed)
        &&& self.active_streams == total_active(shards)
        &&& self.streams_started == total(shards, Event::StreamStarted)
        &&& self.chunks == total(shards, Event::Chunk)
        &&& self.write_blocked == total(shards, Event::WriteBlocked)
        &&& self.read_lag.clock_steps == total(shards, Event::ClockStep)
        &&& self.read_lag.samples == all_lags(shards).len()
        &&& self.read_lag.p50_ns == histogram::histogram_percentile(all_lags(shards), 50)
        &&& self.read_lag.p99_ns == histogram::histogram_percentile(all_lags(shards), 99)
        &&& self.read_lag.p999_ns == lag.p999_ns
        &&& self.read_lag.histogram@ == lag.histogram@
        &&& self.shards@.len() == shards.len()
        &&& forall|i: int| 0 <= i < shards.len() ==> (#[trigger] self.shards@[i]).shows(shards[i])
        &&& forall|kind: ErrorKind| #[trigger]
            self.errors.of(kind) == total(shards, Event::Error(kind))
    }
}

/// The counters of every shard of one server.
#[derive(Debug)]
pub struct Stats {
    /// One block per shard.
    pub shards: Vec<ShardCounters>,
    /// Bounds of every read-lag histogram.
    pub bounds: Bounds,
}

impl Stats {
    /// Every read-lag histogram has the common bounds.
    pub open spec fn wf(self) -> bool {
        &&& self.bounds.valid()
        &&& forall|i: int|
            0 <= i < self.shards@.len() ==> histogram::histogram_bounds(
                (#[trigger] self.shards@[i]).read_lag,
            ) == self.bounds.tuple()
    }

    /// Every sum fits its counter, and the read lags can be counted together.
    pub open spec fn countable(self) -> bool {
        &&& forall|event: Event| #[trigger] total(self.shards@, event) <= u64::MAX
        &&& total_active(self.shards@) <= u64::MAX
        &&& all_lags(self.shards@).len() < u64::MAX
    }

    /// Creates zeroed counters for `shards` shards.
    pub fn new(shards: usize, bounds: Bounds) -> (r: Self)
        requires
            bounds.valid(),
        ensures
            r.wf(),
            r.bounds == bounds,
            r.shards@.len() == shards,
            forall|i: int| 0 <= i < shards ==> (#[trigger] r.shards@[i]).is_zero(),
    {
        let mut blocks: Vec<ShardCounters> = Vec::new();
        let mut i: usize = 0;
        while i < shards
            invariant
                i <= shards,
                bounds.valid(),
                blocks@.len() == i,
                forall|j: int|
                    0 <= j < i ==> (#[trigger] blocks@[j]).is_zero() && histogram::histogram_bounds(
                        blocks@[j].read_lag,
                    ) == bounds.tuple(),
            decreases shards - i,
        {
            blocks.push(ShardCounters::new(bounds));
            i += 1;
        }
        Stats { shards: blocks, bounds }
    }

    /// The counter block owned by shard `index`.
    pub fn shard(&mut self, index: usize) -> (r: &mut ShardCounters)
        requires
            index < old(self).shards@.len(),
        ensures
            *r == old(self).shards@[index as int],
            final(self).shards@ == old(self).shards@.update(index as int, *final(r)),
            final(self).bounds == old(self).bounds,
    {
        &mut self.shards[index]
    }

    /// The sum of one counter over all shards; `None` when it does not fit.
    fn checked_sum(&self, event: Event) -> (r: Option<u64>)
        ensures
            match r {
                Some(v) => v == total(self.shards@, event),
                None => total(self.shards@, event) > u64::MAX,
            },
    {
        let mut sum: u64 = 0;
        let mut i: usize = 0;
        while i < self.shards.len()
            invariant
                i <= self.shards@.len(),
                sum == total(self.shards@.take(i as int), event),
            decreases self.shards@.len() - i,
        {
            proof {
                assert(self.shards@.take(i + 1).drop_last() =~= self.shards@.take(i as int));
                lemma_total_grows(self.shards@, i + 1, event);
            }
            let count: u64 = self.shards[i].counter(event).get();
            match sum.checked_add(count) {
                Some(v) => {
                    sum = v;
                },
                None => {
                    return None;
                },
            }
            i += 1;
        }
        assert(self.shards@.take(i as int) =~= self.shards@);
        Some(sum)
    }

    /// The streams in progress on all shards; `None` when the sum does not
    /// fit.
    fn checked_active(&self) -> (r: Option<u64>)
        ensures
            match r {
                Some(v) => v == total_active(self.shards@),
                None => total_active(self.shards@) > u64::MAX,
            },
    {
        let mut sum: u64 = 0;
        let mut i: usize = 0;
        while i < self.shards.len()
            invariant
                i <= self.shards@.len(),
                sum == total_active(self.shards@.take(i as int)),
            decreases self.shards@.len() - i,
        {
            proof {
                assert(self.shards@.take(i + 1).drop_last() =~= self.shards@.take(i as int));
                lemma_active_grows(self.shards@, i + 1);
            }
            let count: u64 = self.shards[i].active_streams();
            match sum.checked_add(count) {
                Some(v) => {
                    sum = v;
                },
                None => {
                    return None;
                },
            }
            i += 1;
        }
        assert(self.shards@.take(i as int) =~= self.shards@);
        Some(sum)
    }

    /// Whether the read lags of all shards can be counted together.
    fn lags_are_countable(&self) -> (r: bool)
        ensures
            r == (all_lags(self.shards@).len() < u64::MAX),
    {
        broadcast use vstd::multiset::group_multiset_axioms;

        let mut sum: u64 = 0;
        let mut i: usize = 0;
        assert(all_lags(self.shards@.take(0)) =~= Multiset::empty());
        while i < self.shards.len()
            invariant
                i <= self.shards@.len(),
                sum < u64::MAX,
                sum == all_lags(self.shards@.take(i as int)).len(),
            decreases self.shards@.len() - i,
        {
            broadcast use vstd::multiset::group_multiset_axioms;

            proof {
                assert(self.shards@.take(i + 1).drop_last() =~= self.shards@.take(i as int));
                lemma_lags_grow(self.shards@, i + 1);
            }
            let count: u64 = sample_count(&self.shards[i].read_lag);
            if count >= u64::MAX - sum {
                return false;
            }
            sum += count;
            i += 1;
        }
        assert(self.shards@.take(i as int) =~= self.shards@);
        true
    }

    /// Whether every sum fits its counter and the read lags can be counted
    /// together.
    pub fn is_countable(&self) -> (r: bool)
        ensures
            r == self.countable(),
    {
        let r = self.checked_active().is_some() && self.checked_sum(Event::Accepted).is_some()
            && self.checked_sum(Event::Request).is_some() && self.checked_sum(
            Event::Closed,
        ).is_some() && self.checked_sum(Event::StreamStarted).is_some() && self.checked_sum(
            Event::StreamFinished,
        ).is_some() && self.checked_sum(Event::Chunk).is_some() && self.checked_sum(
            Event::WriteBlocked,
        ).is_some() && self.checked_sum(Event::ClockStep).is_some() && self.errors_are_countable()
            && self.lags_are_countable();
        proof {
            if r {
                assert forall|event: Event| #[trigger] total(self.shards@, event) <= u64::MAX by {
                    match event {
                        Event::Error(kind) => {
                            assert(total(self.shards@, Event::Error(kind)) <= u64::MAX);
                        },
                        _ => {},
                    }
                }
            }
        }
        r
    }

    fn errors_are_countable(&self) -> (r: bool)
        ensures
            r == (forall|kind: ErrorKind| #[trigger]
                total(self.shards@, Event::Error(kind)) <= u64::MAX),
    {
        self.checked_sum(Event::Error(ErrorKind::BadRequest)).is_some() && self.checked_sum(
            Event::Error(ErrorKind::HeadTooLarge),
        ).is_some() && self.checked_sum(Event::Error(ErrorKind::BodyTooLarge)).is_some()
            && self.checked_sum(Event::Error(ErrorKind::BadDirective)).is_some()
            && self.checked_sum(Event::Error(ErrorKind::NotFound)).is_some() && self.checked_sum(
            Event::Error(ErrorKind::MethodNotAllowed),
        ).is_some() && self.checked_sum(Event::Error(ErrorKind::Tls)).is_some()
            && self.checked_sum(Event::Error(ErrorKind::Io)).is_some() && self.checked_sum(
            Event::Error(ErrorKind::Aborted),
        ).is_some() && self.checked_sum(Event::Error(ErrorKind::Accept)).is_some()
    }

    /// The sum of one counter over all shards.
    fn sum(&self, event: Event) -> (r: u64)
        requires
            self.countable(),
        ensures
            r == total(self.shards@, event),
    {
        match self.checked_sum(event) {
            Some(v) => v,
            None => 0,
        }
    }

    /// The read lags of all shards in one histogram.
    pub fn merged_read_lag(&self) -> (r: Latencies)
        requires
            self.wf(),
        ensures
            histogram::histogram_bounds(r) == self.bounds.tuple(),
            all_lags(self.shards@).len() <= u64::MAX ==> histogram::histogram_samples(r)
                == all_lags(self.shards@),
    {
        broadcast use vstd::multiset::group_multiset_axioms;

        let mut merged = new_histogram(self.bounds);
        let mut i: usize = 0;
        assert(all_lags(self.shards@.take(0)) =~= Multiset::empty());
        while i < self.shards.len()
            invariant
                i <= self.shards@.len(),
                self.wf(),
                histogram::histogram_bounds(merged) == self.bounds.tuple(),
                all_lags(self.shards@).len() <= u64::MAX ==> histogram::histogram_samples(merged)
                    == all_lags(self.shards@.take(i as int)),
            decreases self.shards@.len() - i,
        {
            broadcast use vstd::multiset::group_multiset_axioms;

            proof {
                assert(self.shards@.take(i + 1).drop_last() =~= self.shards@.take(i as int));
                lemma_lags_grow(self.shards@, i + 1);
            }
            merge(&mut merged, &self.shards[i].read_lag);
            i += 1;
        }
        assert(self.shards@.take(i as int) =~= self.shards@);
        merged
    }

    /// Sums all shards and lists each one. `lag` is of
    /// [`merged_read_lag`](Self::merged_read_lag).
    pub fn snapshot(&self, lag: LagSummary) -> (r: Snapshot)
        requires
            self.wf(),
            self.countable(),
        ensures
            r.shows(self.shards@, lag),
            self.bounds.low == 1 && all_lags(self.shards@).len() > 0 ==> {
                &&& all_lags(self.shards@).contains(r.read_lag.max_ns)
                &&& forall|v: u64| #[trigger]
                    all_lags(self.shards@).contains(v) ==> v <= r.read_lag.max_ns
            },
            self.bounds.low == 1 && all_lags(self.shards@).len() == 0 ==> r.read_lag.max_ns == 0,
    {
        let merged = self.merged_read_lag();
        let mut shards: Vec<ShardSnapshot> = Vec::new();
        let mut i: usize = 0;
        while i < self.shards.len()
            invariant
                i <= self.shards@.len(),
                shards@.len() == i,
                forall|j: int| 0 <= j < i ==> (#[trigger] shards@[j]).shows(self.shards@[j]),
            decreases self.shards@.len() - i,
        {
            let s = &self.shards[i];
            shards.push(
                ShardSnapshot {
                    accepts: s.accepts.get(),
                    requests: s.requests.get(),
                    chunks: s.chunks.get(),
                    active_streams: s.active_streams(),
                    write_blocked: s.write_blocked.get(),
                    read_lag_samples: sample_count(&s.read_lag),
                },
            );
            i += 1;
        }
        let active_streams: u64 = match self.checked_active() {
            Some(v) => v,
            None => 0,
        };
        Snapshot {
            accepts: self.sum(Event::Accepted),
            requests: self.sum(Event::Request),
            closed: self.sum(Event::Closed),
            active_streams,
            streams_started: self.sum(Event::StreamStarted),
            chunks: self.sum(Event::Chunk),
            write_blocked: self.sum(Event::WriteBlocked),
            read_lag: ReadLagSnapshot {
                samples: sample_count(&merged),
                p50_ns: percentile(&merged, 50),
                p99_ns: percentile(&merged, 99),
                p999_ns: lag.p999_ns,
                max_ns: max_value(&merged),
                clock_steps: self.sum(Event::ClockStep),
                histogram: lag.histogram,
            },
            shards,
            errors: ErrorSnapshot {
                bad_request: self.sum(Event::Error(ErrorKind::BadRequest)),
                head_too_large: self.sum(Event::Error(ErrorKind::HeadTooLarge)),
                body_too_large: self.sum(Event::Error(ErrorKind::BodyTooLarge)),
                bad_directive: self.sum(Event::Error(ErrorKind::BadDirective)),
                not_found: self.sum(Event::Error(ErrorKind::NotFound)),
                method_not_allowed: self.sum(Event::Error(ErrorKind::MethodNotAllowed)),
                tls: self.sum(Event::Error(ErrorKind::Tls)),
                io: self.sum(Event::Error(ErrorKind::Io)),
                aborted: self.sum(Event::Error(ErrorKind::Aborted)),
                accept: self.sum(Event::Error(ErrorKind::Accept)),
            },
        }
    }

    /// Restarts every counter and read-lag histogram from zero. The
    /// `active_streams` gauge is not a counter and keeps describing live
    /// streams.
    pub fn reset(&mut self)
        requires
            old(self).wf(),
        ensures
            final(self).wf(),
            final(self).bounds == old(self).bounds,
            final(self).shards@.len() == old(self).shards@.len(),
            forall|i: int|
                0 <= i < final(self).shards@.len() ==> (#[trigger] final(self).shards@[i]).restarts(old(self).shards@[i]),
    {
        let mut i: usize = 0;
        while i < self.shards.len()
            invariant
                i <= self.shards@.len(),
                self.shards@.len() == old(self).shards@.len(),
                self.bounds == old(self).bounds,
                old(self).wf(),
                forall|j: int|
                    0 <= j < i ==> (#[trigger] self.shards@[j]).restarts(old(self).shards@[j]),
                forall|j: int|
                    i <= j < self.shards@.len() ==> #[trigger] self.shards@[j] == old(self).shards@[j],
            decreases self.shards@.len() - i,
        {
            self.shards[i].reset();
            i += 1;
        }
    }
}

/// A snapshot taken right after a reset shows nothing counted, whatever was
/// counted before.
pub proof fn law_a_reset_restarts_every_count(
    before: Seq<ShardCounters>,
    after: Seq<ShardCounters>,
    event: Event,
)
    requires
        before.len() == after.len(),
        forall|i: int| 0 <= i < after.len() ==> (#[trigger] after[i]).restarts(before[i]),
    ensures
        total(after, event) == 0,
        all_lags(after) == Multiset::<u64>::empty(),
    decreases after.len(),
{
    broadcast use vstd::multiset::group_multiset_axioms;

    if after.len() > 0 {
        law_a_reset_restarts_every_count(before.drop_last(), after.drop_last(), event);
        assert(after.last().restarts(before.last()));
        assert(after.last().of(event) == before.last().of(event).restarted());
    }
    assert(all_lags(after) =~= Multiset::<u64>::empty());
}

/// A reset keeps the number of streams in progress.
pub proof fn law_a_reset_keeps_active_streams(
    before: Seq<ShardCounters>,
    after: Seq<ShardCounters>,
)
    requires
        before.len() == after.len(),
        forall|i: int| 0 <= i < after.len() ==> (#[trigger] after[i]).restarts(before[i]),
    ensures
        total_active(after) == total_active(before),
    decreases after.len(),
{
    if after.len() > 0 {
        law_a_reset_keeps_active_streams(before.drop_last(), after.drop_last());
        let a = after.last();
        let b = before.last();
        assert(a.restarts(b));
        assert(a.of(Event::StreamStarted) == b.of(Event::StreamStarted).restarted());
        assert(a.of(Event::StreamFinished) == b.of(Event::StreamFinished).restarted());
    }
}

/// An event counted after a reset is visible in the next snapshot, unless
/// the total wraps around.
pub proof fn law_an_event_after_a_reset_is_counted(
    before: ShardCounters,
    reset: ShardCounters,
    after: ShardCounters,
    event: Event,
)
    requires
        reset.restarts(before),
        after == reset.counting(event),
        before.of(event).value < u64::MAX,
    ensures
        after.of(event).count() == 1,
{
    assert(reset.of(event) == before.of(event).restarted());
}

/// The sum of one figure over the shards of a snapshot.
pub open spec fn sum_of(shards: Seq<ShardSnapshot>, figure: spec_fn(ShardSnapshot) -> u64) -> int
    decreases shards.len(),
{
    if shards.len() == 0 {
        0
    } else {
        sum_of(shards.drop_last(), figure) + figure(shards.last())
    }
}

/// The totals of a snapshot are the sums over the shards that it lists.
pub proof fn law_a_snapshot_adds_up(snapshot: Snapshot, shards: Seq<ShardCounters>, lag: LagSummary)
    requires
        snapshot.shows(shards, lag),
    ensures
        snapshot.accepts == sum_of(snapshot.shards@, |s: ShardSnapshot| s.accepts),
        snapshot.requests == sum_of(snapshot.shards@, |s: ShardSnapshot| s.requests),
        snapshot.chunks == sum_of(snapshot.shards@, |s: ShardSnapshot| s.chunks),
        snapshot.active_streams == sum_of(snapshot.shards@, |s: ShardSnapshot| s.active_streams),
        snapshot.write_blocked == sum_of(snapshot.shards@, |s: ShardSnapshot| s.write_blocked),
        snapshot.read_lag.samples == sum_of(
            snapshot.shards@,
            |s: ShardSnapshot| s.read_lag_samples,
        ),
{
    lemma_shards_add_up(snapshot.shards@, shards);
}

proof fn lemma_shards_add_up(shown: Seq<ShardSnapshot>, shards: Seq<ShardCounters>)
    requires
        shown.len() == shards.len(),
        forall|i: int| 0 <= i < shards.len() ==> (#[trigger] shown[i]).shows(shards[i]),
    ensures
        total(shards, Event::Accepted) == sum_of(shown, |s: ShardSnapshot| s.accepts),
        total(shards, Event::Request) == sum_of(shown, |s: ShardSnapshot| s.requests),
        total(shards, Event::Chunk) == sum_of(shown, |s: ShardSnapshot| s.chunks),
        total_active(shards) == sum_of(shown, |s: ShardSnapshot| s.active_streams),
        total(shards, Event::WriteBlocked) == sum_of(shown, |s: ShardSnapshot| s.write_blocked),
        all_lags(shards).len() <= u64::MAX ==> all_lags(shards).len() == sum_of(
            shown,
            |s: ShardSnapshot| s.read_lag_samples,
        ),
    decreases shards.len(),
{
    broadcast use vstd::multiset::group_multiset_axioms;

    if shards.len() > 0 {
        lemma_shards_add_up(shown.drop_last(), shards.drop_last());
        assert(shown.last().shows(shards.last()));
    }
}

} // verus!
