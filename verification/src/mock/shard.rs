//! The state of one shard: its connections, the responses they are producing
//! and the emission schedule.
//!
//! A shard is driven by an event loop that owns the sockets, the clock and
//! the timer. The loop reports what happened and performs what the shard
//! decides; the shard itself does no I/O. Firing an entry builds the event
//! bytes first, so the loop only has to wait for the planned time, patch the
//! write timestamp and issue exactly one write.

use crate::histogram;
use crate::mock::inspect::{ChatRequest, Inspected, Inspector};
use crate::mock::request;
use crate::mock::request::{
    Head, Method, Progress, RequestError, RequestReader, Route, State, MAX_BODY_BYTES,
    MAX_HEAD_BYTES,
};
use crate::mock::response;
use crate::mock::response::{
    error_reply, json_reply, models_body, no_content_reply, Reply, StreamTemplate, Usage,
};
use crate::mock::schedule;
use crate::mock::schedule::{chunk_time, Entry, Schedule};
use crate::mock::server::check_limits;
use crate::mock::stats::{ErrorKind, Event, ShardCounters};
use crate::text::append;
use crate::time;
use crate::time::saturating_product;
use crate::wire;
use crate::wire::{BenchParams, BodyFraming};
use vstd::prelude::*;
use vstd::string::StringExecFns;

verus! {

/// Receives per readable event before the connection yields to the rest of
/// the loop. Together with [`READ_BUDGET_BYTES`] and the check for due
/// emissions after every receive, bounds how long one large upload can delay
/// scheduled writes.
pub const READ_BUDGET: usize = 16;

/// Plaintext bytes per readable event before the connection yields.
pub const READ_BUDGET_BYTES: usize = 262_144;

/// Input buffered while a response is in flight, beyond which the client is
/// cut off: the request reader is not advanced then, so its limits do not
/// apply, and nothing else would stop the buffer from growing.
pub const MAX_BUFFERED_INPUT: usize = MAX_HEAD_BYTES + MAX_BODY_BYTES;

/// Delay before accepting again after `accept` failed, e.g. with `EMFILE`.
/// The listener is edge-triggered, so without a retry queued connections
/// would wait for the next new connection.
pub const ACCEPT_RETRY_NS: u64 = 10_000_000;

/// What a response consists of.
#[derive(Debug)]
pub enum ResponseKind {
    /// An SSE stream.
    Stream {
        /// Bytes shared by its events.
        template: StreamTemplate,
        /// Parameters of the request.
        params: BenchParams,
        /// When the first chunk is due.
        t_first: u64,
        /// Usage to report at the end, if requested.
        tail_usage: Option<Usage>,
    },
    /// A complete response in one write.
    Completion {
        /// Parameters of the request.
        params: BenchParams,
        /// Creation time, Unix seconds.
        created_unix_s: u64,
        /// Usage to report.
        usage: Usage,
    },
}

/// The response a connection is currently producing. Requests pipelined
/// behind it stay buffered until it completes.
#[derive(Debug)]
pub struct Response {
    /// Shard-unique id; schedule entries carry it so an entry can never fire
    /// into a later response that reuses the connection slot.
    pub id: u64,
    /// Whether the connection stays open afterwards.
    pub keep_alive: bool,
    /// What is being produced.
    pub kind: ResponseKind,
}

impl Response {
    /// The usage to report fits its counters.
    pub open spec fn wf(self) -> bool {
        match self.kind {
            ResponseKind::Stream { tail_usage, .. } => tail_usage matches Some(usage)
                ==> usage.fits(),
            ResponseKind::Completion { usage, .. } => usage.fits(),
        }
    }

    /// Whether this is an SSE stream.
    pub open spec fn is_stream(self) -> bool {
        self.kind is Stream
    }
}

/// What a shard keeps per connection.
#[derive(Debug)]
pub struct Connection {
    /// Received and not yet consumed input.
    pub rx: Vec<u8>,
    /// Reads requests from `rx`.
    pub reader: RequestReader,
    /// The response being produced.
    pub response: Option<Response>,
    /// A graceful close is in progress; input is ignored.
    pub closing: bool,
    /// The peer closed its sending side.
    pub eof: bool,
}

impl Connection {
    /// Unless it is closing, the reader agrees with the buffer.
    pub open spec fn wf(self) -> bool {
        &&& self.closing || self.reader.fits(self.rx@)
        &&& self.response matches Some(response) ==> response.wf()
    }

    /// A connection on which nothing has happened yet.
    pub open spec fn is_fresh(self) -> bool {
        &&& self.rx@.len() == 0
        &&& self.reader.state == State::Head
        &&& self.reader.chunked_body@.len() == 0
        &&& self.response is None
        &&& !self.closing
        &&& !self.eof
    }

    fn new() -> (r: Self)
        ensures
            r.is_fresh(),
            r.wf(),
    {
        Connection {
            rx: Vec::new(),
            reader: RequestReader::new(),
            response: None,
            closing: false,
            eof: false,
        }
    }
}

/// Some entry belongs to this response.
pub open spec fn has_entry(entries: Seq<Entry>, id: u64) -> bool {
    exists|i: int| 0 <= i < entries.len() && (#[trigger] entries[i]).stream == id
}

/// The state of one shard.
#[derive(Debug)]
pub struct Shard {
    /// Connections by slot.
    pub conns: Vec<Option<Connection>>,
    /// Slots to reuse.
    pub free: Vec<usize>,
    /// Planned emissions.
    pub schedule: Schedule,
    /// Connections whose read budget ran out while data may remain; with
    /// edge-triggered readiness no new event would arrive for them.
    pub read_again: Vec<usize>,
    /// When to retry `accept` after it failed.
    pub accept_retry_at: Option<u64>,
    /// A request body is being inspected. Nested inspections, reached through
    /// emissions fired between windows, do not fire again, which bounds the
    /// recursion.
    pub inspecting: bool,
    /// Id of the next response.
    pub next_response_id: u64,
    /// Parameters used when a request carries no directive.
    pub defaults: BenchParams,
    /// Model name reported in responses and by `/v1/models`.
    pub model: String,
}

impl Shard {
    /// There is a connection in this slot.
    pub open spec fn live(self, slot: int) -> bool {
        0 <= slot < self.conns@.len() && self.conns@[slot] is Some
    }

    /// The connection in a live slot.
    pub open spec fn conn(self, slot: int) -> Connection {
        self.conns@[slot]->Some_0
    }

    /// Id of the response that the connection in this slot is producing.
    pub open spec fn response_id(self, slot: int) -> Option<u64> {
        if self.live(slot) && self.conn(slot).response is Some {
            Some(self.conn(slot).response->Some_0.id)
        } else {
            None
        }
    }

    /// Some entry of the schedule belongs to this response.
    pub open spec fn is_scheduled(self, id: u64) -> bool {
        has_entry(self.schedule.entries@, id)
    }

    /// The entry stands at the planned time of its chunk: the first chunk of
    /// a stream when the response starts, each next one an interval later.
    pub open spec fn is_planned(self, entry: Entry) -> bool {
        match self.conn(entry.slot as int).response {
            Some(response) => match response.kind {
                ResponseKind::Stream { params, t_first, .. } => {
                    &&& entry.t_sched == time::capped(
                        t_first + params.interval_us * 1_000 * entry.seq,
                    )
                    &&& entry.seq == 0 || entry.seq < params.chunks
                },
                ResponseKind::Completion { .. } => entry.seq == 0,
            },
            None => false,
        }
    }

    /// The invariant of a shard, with the response in `slot` exempt from
    /// being scheduled while its entry is being fired:
    ///
    /// - slots to reuse are vacant and listed once;
    /// - response ids are unique and below the next one;
    /// - every entry belongs to the response its connection is producing, and
    ///   no response has two;
    /// - the entries of a stream are planned one interval after the other;
    /// - every response being produced is scheduled.
    pub open spec fn wf_but(self, slot: int) -> bool {
        &&& self.schedule.wf()
        &&& forall|i: int|
            0 <= i < self.free@.len() ==> (#[trigger] self.free@[i]) < self.conns@.len()
                && self.conns@[self.free@[i] as int] is None
        &&& forall|i: int, j: int|
            0 <= i < j < self.free@.len() ==> #[trigger] self.free@[i] != #[trigger] self.free@[j]
        &&& forall|s: int| #[trigger] self.live(s) ==> self.conn(s).wf()
        &&& forall|s: int|
            (#[trigger] self.response_id(s)) matches Some(id) ==> id < self.next_response_id
        &&& forall|s: int, t: int|
            s != t && (#[trigger] self.response_id(s)) is Some ==> #[trigger] self.response_id(t)
                != self.response_id(s)
        &&& forall|i: int|
            0 <= i < self.schedule.entries@.len() ==> self.response_id(
                (#[trigger] self.schedule.entries@[i]).slot as int,
            ) == Some(self.schedule.entries@[i].stream)
        &&& forall|i: int|
            0 <= i < self.schedule.entries@.len() ==> self.is_planned(
                #[trigger] self.schedule.entries@[i],
            )
        &&& schedule::one_per_stream(self.schedule.entries@)
        &&& forall|s: int|
            s != slot && (#[trigger] self.response_id(s)) is Some ==> self.is_scheduled(
                self.response_id(s)->Some_0,
            )
    }

    /// The invariant of a shard between events; see
    /// [`wf_but`](Self::wf_but).
    pub open spec fn wf(self) -> bool {
        self.wf_but(-1)
    }

    /// Everything but the connections, the free list and the schedule is the
    /// same.
    pub open spec fn same_settings(self, other: Shard) -> bool {
        &&& self.read_again@ == other.read_again@
        &&& self.accept_retry_at == other.accept_retry_at
        &&& self.inspecting == other.inspecting
        &&& self.next_response_id == other.next_response_id
        &&& self.defaults == other.defaults
        &&& self.model@ == other.model@
    }

    /// `entry` has been taken out of the schedule and waits to be fired.
    pub open spec fn holds_popped(self, entry: Entry) -> bool {
        &&& self.wf_but(entry.slot as int)
        &&& self.response_id(entry.slot as int) == Some(entry.stream)
        &&& self.is_planned(entry)
        &&& !self.is_scheduled(entry.stream)
    }

    /// A shard without connections.
    pub fn new(defaults: BenchParams, model: String) -> (r: Self)
        ensures
            r.wf(),
            r.conns@.len() == 0,
            r.free@.len() == 0,
            r.schedule.entries@.len() == 0,
            r.read_again@.len() == 0,
            r.accept_retry_at is None,
            !r.inspecting,
            r.next_response_id == 0,
            r.defaults == defaults,
            r.model@ == model@,
    {
        Shard {
            conns: Vec::new(),
            free: Vec::new(),
            schedule: Schedule::new(),
            read_again: Vec::new(),
            accept_retry_at: None,
            inspecting: false,
            next_response_id: 0,
            defaults,
            model,
        }
    }

    /// A vacant slot for a new connection: the one freed last, or a new one.
    pub fn take_slot(&mut self) -> (slot: usize)
        requires
            old(self).wf(),
        ensures
            final(self).wf(),
            final(self).conns@ == old(self).conns@,
            final(self).schedule == old(self).schedule,
            final(self).same_settings(*old(self)),
            if old(self).free@.len() > 0 {
                slot == old(self).free@.last() && final(self).free@ == old(self).free@.drop_last()
            } else {
                slot == old(self).conns@.len() && final(self).free@ == old(self).free@
            },
            final(self).is_vacant(slot as int),
    {
        let slot: usize = match self.free.pop() {
            Some(slot) => slot,
            None => self.conns.len(),
        };
        assert forall|s: int| #[trigger] self.live(s) == old(self).live(s) by {}
        assert forall|s: int| #[trigger] self.response_id(s) == old(self).response_id(s) by {}
        assert forall|id: u64| #[trigger] self.is_scheduled(id) == old(self).is_scheduled(id) by {}
        assert forall|e: Entry| #[trigger] self.is_planned(e) == old(self).is_planned(e) by {}
        slot
    }

    /// The slot is next to the last one, or vacant and not listed for reuse.
    pub open spec fn is_vacant(self, slot: int) -> bool {
        &&& 0 <= slot <= self.conns@.len()
        &&& slot < self.conns@.len() ==> self.conns@[slot] is None
        &&& forall|i: int| 0 <= i < self.free@.len() ==> #[trigger] self.free@[i] != slot
    }

    /// Puts a new connection into a vacant slot.
    pub fn add_connection(&mut self, slot: usize)
        requires
            old(self).wf(),
            old(self).is_vacant(slot as int),
        ensures
            final(self).wf(),
            final(self).live(slot as int),
            final(self).conn(slot as int).is_fresh(),
            final(self).free@ == old(self).free@,
            final(self).schedule == old(self).schedule,
            final(self).same_settings(*old(self)),
            forall|s: int|
                s != slot && 0 <= s < old(self).conns@.len() ==> #[trigger] final(self).conns@[s]
                    == old(self).conns@[s],
            final(self).conns@.len() == (if slot == old(self).conns@.len() {
                old(self).conns@.len() + 1
            } else {
                old(self).conns@.len()
            }),
    {
        if slot == self.conns.len() {
            self.conns.push(Some(Connection::new()));
        } else {
            self.conns[slot] = Some(Connection::new());
        }
        proof {
            assert forall|s: int| s != slot implies #[trigger] self.live(s) == old(self).live(s)
                && self.response_id(s) == old(self).response_id(s) && (self.live(s) ==> self.conn(
                s,
            ) == old(self).conn(s)) by {
                if 0 <= s < old(self).conns@.len() {
                    assert(self.conns@[s] == old(self).conns@[s]);
                }
            }
            assert forall|s: int| #[trigger] self.response_id(s) == old(self).response_id(s) by {
                assert(self.live(s) == self.live(s));
            }
            assert forall|id: u64| #[trigger] self.is_scheduled(id) == old(self).is_scheduled(
                id,
            ) by {}
            assert forall|i: int| 0 <= i < self.schedule.entries@.len() implies self.is_planned(
                #[trigger] self.schedule.entries@[i],
            ) by {
                let e = old(self).schedule.entries@[i];
                assert(old(self).is_planned(e));
                assert(old(self).response_id(e.slot as int) == Some(e.stream));
            }
        }
    }
}

/// The counters after a connection in this state is closed for this reason.
pub open spec fn closed_counts(
    counters: ShardCounters,
    conn: Connection,
    error: Option<ErrorKind>,
) -> ShardCounters {
    let settled = match conn.response {
        Some(response) => {
            let ended = if response.is_stream() {
                counters.counting(Event::StreamFinished)
            } else {
                counters
            };
            ended.counting(Event::Error(ErrorKind::Aborted))
        },
        None => match error {
            Some(kind) => counters.counting(Event::Error(kind)),
            None => counters,
        },
    };
    settled.counting(Event::Closed)
}

impl Shard {
    /// Drops a connection and everything scheduled for it. Returns whether
    /// there was one.
    pub fn close(
        &mut self,
        slot: usize,
        error: Option<ErrorKind>,
        counters: &mut ShardCounters,
    ) -> (closed: bool)
        requires
            old(self).wf_but(slot as int),
        ensures
            final(self).wf(),
            closed == old(self).live(slot as int),
            !closed ==> *final(self) == *old(self) && *final(counters) == *old(counters),
            closed ==> {
                &&& final(self).conns@ == old(self).conns@.update(slot as int, None)
                &&& final(self).free@ == old(self).free@.push(slot)
                &&& final(self).same_settings(*old(self))
                &&& *final(counters) == closed_counts(
                    *old(counters),
                    old(self).conn(slot as int),
                    error,
                )
                &&& forall|e: Entry| #[trigger]
                    final(self).schedule.entries@.contains(e) <==> old(
                        self).schedule.entries@.contains(e) && e.slot != slot
            },
    {
        if slot >= self.conns.len() || self.conns[slot].is_none() {
            assert forall|s: int| #[trigger] self.response_id(s) is Some implies s != slot by {}
            return false;
        }
        let conn = match self.conns[slot].take() {
            Some(conn) => conn,
            None => {
                return false;
            },
        };
        let ghost gone: Option<u64> = old(self).response_id(slot as int);
        match conn.response {
            Some(response) => {
                self.schedule.drop_stream(response.id);
                if matches!(response.kind, ResponseKind::Stream { .. }) {
                    counters.stream_finished();
                }
                counters.error(ErrorKind::Aborted);
            },
            None => {
                if let Some(kind) = error {
                    counters.error(kind);
                }
            },
        }
        counters.connection_closed();
        self.free.push(slot);
        proof {
            assert(self.conns@ =~= old(self).conns@.update(slot as int, None));
            assert forall|s: int| #[trigger] self.live(s) == (s != slot && old(self).live(s)) by {}
            assert forall|s: int| s != slot implies #[trigger] self.response_id(s) == old(
                self).response_id(s) by {}
            assert(self.response_id(slot as int) is None);
            let before = old(self).schedule.entries@;
            let after = self.schedule.entries@;
            assert forall|e: Entry| #[trigger] after.contains(e) <==> before.contains(e) && e.slot
                != slot by {
                if before.contains(e) {
                    let k = choose|k: int| 0 <= k < before.len() && before[k] == e;
                    assert(old(self).response_id(before[k].slot as int) == Some(before[k].stream));
                    if e.slot != slot && gone == Some(e.stream) {
                        assert(old(self).response_id(slot as int) != old(self).response_id(
                            e.slot as int,
                        ));
                    }
                }
            }
            assert forall|i: int| 0 <= i < after.len() implies self.response_id(
                (#[trigger] after[i]).slot as int,
            ) == Some(after[i].stream) by {
                assert(after.contains(after[i]));
                let k = choose|k: int| 0 <= k < before.len() && before[k] == after[i];
                assert(old(self).response_id(before[k].slot as int) == Some(before[k].stream));
            }
            assert forall|i: int| 0 <= i < after.len() implies self.is_planned(
                #[trigger] after[i],
            ) by {
                assert(after.contains(after[i]));
                let k = choose|k: int| 0 <= k < before.len() && before[k] == after[i];
                assert(old(self).is_planned(before[k]));
                assert(old(self).response_id(before[k].slot as int) == Some(before[k].stream));
            }
            assert forall|s: int| (#[trigger] self.response_id(s)) is Some implies self.is_scheduled(
                self.response_id(s)->Some_0,
            ) by {
                let id = old(self).response_id(s)->Some_0;
                assert(s != slot);
                assert(old(self).is_scheduled(id));
                let k = choose|k: int| 0 <= k < before.len() && (#[trigger] before[k]).stream == id;
                assert(before.contains(before[k]));
                assert(old(self).response_id(before[k].slot as int) == Some(id));
                if before[k].slot != s {
                    assert(old(self).response_id(before[k].slot as int) != old(self).response_id(s));
                }
                assert(after.contains(before[k]));
                let m = choose|m: int| 0 <= m < after.len() && after[m] == before[k];
                assert(after[m].stream == id);
            }
        }
        true
    }
}

/// A change of one connection that leaves its response alone keeps the
/// invariant.
proof fn lemma_slot_changed(before: Shard, after: Shard, slot: int, but: int)
    requires
        before.wf_but(but),
        before.live(slot),
        after.live(slot),
        after.conns@ == before.conns@.update(slot, after.conns@[slot]),
        after.conn(slot).wf(),
        after.conn(slot).response == before.conn(slot).response,
        after.free@ == before.free@,
        after.schedule.entries@ == before.schedule.entries@,
        after.next_response_id == before.next_response_id,
    ensures
        after.wf_but(but),
{
    assert forall|s: int| #[trigger] after.live(s) == before.live(s) by {}
    assert forall|s: int| #[trigger] after.response_id(s) == before.response_id(s) by {
        assert(after.live(s) == before.live(s));
    }
    assert forall|s: int| #[trigger] after.live(s) implies after.conn(s).wf() by {
        if s != slot {
            assert(before.live(s));
        }
    }
    assert forall|id: u64| #[trigger] after.is_scheduled(id) == before.is_scheduled(id) by {}
    assert forall|i: int| 0 <= i < after.schedule.entries@.len() implies after.is_planned(
        #[trigger] after.schedule.entries@[i],
    ) by {
        let e = before.schedule.entries@[i];
        assert(before.is_planned(e));
        assert(before.response_id(e.slot as int) == Some(e.stream));
    }
}

/// Input behind what the reader refers to does not matter to it.
proof fn lemma_fits_longer(reader: RequestReader, rx: Seq<u8>, more: Seq<u8>)
    requires
        reader.fits(rx),
    ensures
        reader.fits(rx + more),
{
}

impl Shard {
    /// Only the connection in `slot` differs from `before`.
    pub open spec fn differs_at(self, before: Shard, slot: int) -> bool {
        &&& self.live(slot)
        &&& self.conns@ == before.conns@.update(slot, self.conns@[slot])
        &&& self.free@ == before.free@
        &&& self.schedule == before.schedule
    }

    /// Whether there is a connection in this slot.
    pub fn is_live(&self, slot: usize) -> (r: bool)
        ensures
            r == self.live(slot as int),
    {
        slot < self.conns.len() && self.conns[slot].is_some()
    }

    /// Buffers received input of a connection.
    pub fn received(&mut self, slot: usize, data: &[u8])
        requires
            old(self).wf(),
        ensures
            final(self).wf(),
            !old(self).live(slot as int) ==> *final(self) == *old(self),
            old(self).live(slot as int) ==> {
                let before = old(self).conn(slot as int);
                let after = final(self).conn(slot as int);
                &&& final(self).differs_at(*old(self), slot as int)
                &&& final(self).same_settings(*old(self))
                &&& after.rx@ == before.rx@ + data@
                &&& after == (Connection { rx: after.rx, ..before })
            },
    {
        if !self.is_live(slot) {
            return;
        }
        if let Some(conn) = &mut self.conns[slot] {
            proof {
                if !conn.closing {
                    lemma_fits_longer(conn.reader, conn.rx@, data@);
                }
            }
            append(&mut conn.rx, data);
        }
        assert(self.conns@ =~= old(self).conns@.update(slot as int, self.conns@[slot as int]));
        proof {
            lemma_slot_changed(*old(self), *self, slot as int, -1);
        }
    }
}

/// A failed socket operation, by the kind of its error.
#[derive(Debug, Clone, Copy, PartialEq, Eq, Structural)]
pub enum IoError {
    /// Malformed data, such as a bad TLS record.
    InvalidData,
    /// The peer reset the connection.
    ConnectionReset,
    /// The connection was aborted.
    ConnectionAborted,
    /// The peer no longer reads.
    BrokenPipe,
    /// The data ended too early.
    UnexpectedEof,
    /// The operation would block.
    WouldBlock,
    /// The operation was interrupted.
    Interrupted,
    /// The operation timed out.
    TimedOut,
    /// Anything else.
    Other,
}

/// An error that just means the peer went away.
pub open spec fn peer_left(err: IoError) -> bool {
    err == IoError::ConnectionReset || err == IoError::ConnectionAborted || err
        == IoError::BrokenPipe || err == IoError::UnexpectedEof
}

/// How a failed socket operation is counted.
pub open spec fn failure_counted_as(err: IoError) -> Option<ErrorKind> {
    if err == IoError::InvalidData {
        Some(ErrorKind::Tls)
    } else if peer_left(err) {
        None
    } else {
        Some(ErrorKind::Io)
    }
}

/// Whether an I/O error just means the peer went away.
pub fn is_disconnect(err: IoError) -> (r: bool)
    ensures
        r == peer_left(err),
{
    matches!(
        err,
        IoError::ConnectionReset | IoError::ConnectionAborted | IoError::BrokenPipe
            | IoError::UnexpectedEof
    )
}

/// How a failed socket operation is counted.
pub fn failure_kind(err: IoError) -> (r: Option<ErrorKind>)
    ensures
        r == failure_counted_as(err),
{
    if err == IoError::InvalidData {
        Some(ErrorKind::Tls)
    } else if is_disconnect(err) {
        None
    } else {
        Some(ErrorKind::Io)
    }
}

/// What accepting a connection calls for next.
#[derive(Debug, Clone, Copy, PartialEq, Eq, Structural)]
pub enum AcceptNext {
    /// The backlog is empty.
    Done,
    /// Accept the next connection.
    Again,
    /// Stop accepting until the retry is due.
    Retry,
}

/// What a failed `accept` calls for: an empty backlog ends the round, a
/// connection that died in the backlog is skipped, and anything else
/// (typically `EMFILE`) is retried later because retrying at once would fail
/// again.
pub open spec fn after_accept_error(err: IoError) -> AcceptNext {
    if err == IoError::WouldBlock {
        AcceptNext::Done
    } else if err == IoError::Interrupted || err == IoError::ConnectionAborted || err
        == IoError::ConnectionReset {
        AcceptNext::Again
    } else {
        AcceptNext::Retry
    }
}

impl Shard {
    /// Closes after a failed socket operation, classifying the error.
    pub fn fail(&mut self, slot: usize, err: IoError, counters: &mut ShardCounters) -> (closed:
        bool)
        requires
            old(self).wf_but(slot as int),
        ensures
            final(self).wf(),
            closed == old(self).live(slot as int),
            !closed ==> *final(self) == *old(self) && *final(counters) == *old(counters),
            closed ==> {
                &&& final(self).conns@ == old(self).conns@.update(slot as int, None)
                &&& final(self).free@ == old(self).free@.push(slot)
                &&& final(self).same_settings(*old(self))
                &&& *final(counters) == closed_counts(
                    *old(counters),
                    old(self).conn(slot as int),
                    failure_counted_as(err),
                )
                &&& forall|e: Entry| #[trigger]
                    final(self).schedule.entries@.contains(e) <==> old(
                        self).schedule.entries@.contains(e) && e.slot != slot
            },
    {
        self.close(slot, failure_kind(err), counters)
    }

    /// Takes in a failed `accept` at `now`.
    pub fn accept_failed(&mut self, err: IoError, now: u64, counters: &mut ShardCounters) -> (r:
        AcceptNext)
        ensures
            r == after_accept_error(err),
            r != AcceptNext::Retry ==> *final(self) == *old(self) && *final(counters) == *old(
                counters),
            r == AcceptNext::Retry ==> {
                &&& *final(self) == (Shard {
                    accept_retry_at: Some(time::capped(now + ACCEPT_RETRY_NS)),
                    ..*old(self)
                })
                &&& *final(counters) == old(counters).counting(Event::Error(ErrorKind::Accept))
            },
    {
        match err {
            IoError::WouldBlock => AcceptNext::Done,
            IoError::Interrupted
            | IoError::ConnectionAborted
            | IoError::ConnectionReset => AcceptNext::Again,
            _ => {
                counters.error(ErrorKind::Accept);
                self.accept_retry_at = Some(now.saturating_add(ACCEPT_RETRY_NS));
                AcceptNext::Retry
            },
        }
    }

    /// Whether a delayed `accept` is due at `now`; it is then no longer
    /// pending.
    pub fn accept_retry_due(&mut self, now: u64) -> (r: bool)
        ensures
            r == (old(self).accept_retry_at matches Some(at) && now >= at),
            *final(self) == (if r {
                Shard { accept_retry_at: None, ..*old(self) }
            } else {
                *old(self)
            }),
    {
        match self.accept_retry_at {
            Some(at) => if now >= at {
                self.accept_retry_at = None;
                true
            } else {
                false
            },
            None => false,
        }
    }

    /// The connections to read again, which are then no longer listed.
    pub fn take_read_again(&mut self) -> (r: Vec<usize>)
        ensures
            r@ == old(self).read_again@,
            final(self).read_again@.len() == 0,
            *final(self) == (Shard { read_again: final(self).read_again, ..*old(self) }),
    {
        let mut again: Vec<usize> = Vec::new();
        std::mem::swap(&mut again, &mut self.read_again);
        again
    }

    /// How long the event loop may wait at `now`, given how long its timer
    /// lets it: not at all while connections are to be read again, and no
    /// longer than until a delayed `accept`.
    pub fn poll_timeout_ns(&self, now: u64, timer_ns: Option<u64>) -> (r: Option<u64>)
        ensures
            ({
                let base = if self.read_again@.len() > 0 {
                    Some(0u64)
                } else {
                    timer_ns
                };
                match self.accept_retry_at {
                    None => r == base,
                    Some(at) => {
                        let retry = if at > now {
                            (at - now) as u64
                        } else {
                            0u64
                        };
                        r == Some(
                            match base {
                                Some(t) => if t < retry {
                                    t
                                } else {
                                    retry
                                },
                                None => retry,
                            },
                        )
                    },
                }
            }),
    {
        let base: Option<u64> = if self.read_again.len() > 0 {
            Some(0)
        } else {
            timer_ns
        };
        match self.accept_retry_at {
            None => base,
            Some(at) => {
                let retry: u64 = at.saturating_sub(now);
                Some(
                    match base {
                        Some(t) => if t < retry {
                            t
                        } else {
                            retry
                        },
                        None => retry,
                    },
                )
            },
        }
    }
}

/// What a receive returned.
#[derive(Debug, Clone, Copy, PartialEq, Eq, Structural)]
pub enum ReadEvent {
    /// The peer closed its sending side.
    Eof,
    /// Input of this many plaintext bytes, already buffered.
    Batch(usize),
    /// It failed.
    Failed(IoError),
}

/// What reading a connection calls for next.
#[derive(Debug, Clone, Copy, PartialEq, Eq, Structural)]
pub enum ReadNext {
    /// Receive again.
    Again,
    /// Process the buffered input.
    Process,
    /// Cut off the client: too much input is buffered behind a response.
    Overflow,
    /// Close the connection.
    Fail(IoError),
}

/// What is left of the budget of one readable event.
#[derive(Debug, Clone, Copy, PartialEq, Eq, Structural)]
pub struct ReadPass {
    /// Receives left.
    pub receives: usize,
    /// Plaintext bytes left.
    pub bytes: usize,
}

impl ReadPass {
    /// The pass after a receive of `n` bytes.
    pub open spec fn after(self, n: usize) -> ReadPass {
        ReadPass {
            receives: (self.receives - 1) as usize,
            bytes: if self.bytes > n {
                (self.bytes - n) as usize
            } else {
                0
            },
        }
    }

    /// The budget is used up.
    pub open spec fn spent(self) -> bool {
        self.receives == 0 || self.bytes == 0
    }

    /// The whole budget.
    pub fn new() -> (r: Self)
        ensures
            r == (ReadPass { receives: READ_BUDGET, bytes: READ_BUDGET_BYTES }),
            !r.spent(),
    {
        ReadPass { receives: READ_BUDGET, bytes: READ_BUDGET_BYTES }
    }
}

/// What a receive on this connection calls for; `due` tells whether an
/// emission has come due.
pub open spec fn read_outcome(
    conn: Connection,
    pass: ReadPass,
    event: ReadEvent,
    due: bool,
) -> ReadNext {
    match event {
        ReadEvent::Eof => ReadNext::Process,
        ReadEvent::Batch(n) => if conn.response is Some && conn.rx@.len() > MAX_BUFFERED_INPUT {
            ReadNext::Overflow
        } else if pass.after(n).spent() || due {
            ReadNext::Process
        } else {
            ReadNext::Again
        },
        ReadEvent::Failed(IoError::WouldBlock) => ReadNext::Process,
        ReadEvent::Failed(IoError::Interrupted) => ReadNext::Again,
        ReadEvent::Failed(err) => ReadNext::Fail(err),
    }
}

impl Shard {
    /// Takes in one receive of a readable connection. When the budget runs
    /// out or an emission comes due, the connection is listed to be read
    /// again.
    pub fn read_event(
        &mut self,
        slot: usize,
        pass: &mut ReadPass,
        event: ReadEvent,
        due: bool,
    ) -> (r: ReadNext)
        requires
            old(self).wf(),
            old(self).live(slot as int),
            !old(pass).spent(),
        ensures
            final(self).wf(),
            r == read_outcome(old(self).conn(slot as int), *old(pass), event, due),
            r == ReadNext::Again ==> !final(pass).spent(),
            *final(pass) == (match event {
                ReadEvent::Batch(n) => if r == ReadNext::Overflow {
                    *old(pass)
                } else {
                    old(pass).after(n)
                },
                _ => *old(pass),
            }),
            ({
                let before = old(self).conn(slot as int);
                let after = final(self).conn(slot as int);
                &&& final(self).differs_at(*old(self), slot as int)
                &&& after == (Connection { rx: after.rx, eof: after.eof, ..before })
                &&& after.eof == (before.eof || event == ReadEvent::Eof)
                &&& after.rx@ == (if r == ReadNext::Process && before.closing {
                    Seq::<u8>::empty()
                } else {
                    before.rx@
                })
                &&& final(self).read_again@ == (if r == ReadNext::Process && event is Batch {
                    old(self).read_again@.push(slot)
                } else {
                    old(self).read_again@
                })
                &&& final(self).accept_retry_at == old(self).accept_retry_at
                &&& final(self).inspecting == old(self).inspecting
                &&& final(self).next_response_id == old(self).next_response_id
                &&& final(self).defaults == old(self).defaults
                &&& final(self).model@ == old(self).model@
            }),
    {
        let mut again = false;
        let mut r = ReadNext::Process;
        if let Some(conn) = &mut self.conns[slot] {
            match event {
                ReadEvent::Eof => {
                    conn.eof = true;
                },
                ReadEvent::Batch(n) => {
                    if conn.response.is_some() && conn.rx.len() > MAX_BUFFERED_INPUT {
                        r = ReadNext::Overflow;
                    } else {
                        pass.receives = pass.receives - 1;
                        pass.bytes = pass.bytes.saturating_sub(n);
                        if pass.receives == 0 || pass.bytes == 0 || due {
                            again = true;
                        } else {
                            r = ReadNext::Again;
                        }
                    }
                },
                ReadEvent::Failed(err) => match err {
                    IoError::WouldBlock => {},
                    IoError::Interrupted => {
                        r = ReadNext::Again;
                    },
                    _ => {
                        r = ReadNext::Fail(err);
                    },
                },
            }
            if r == ReadNext::Process && conn.closing {
                conn.rx.clear();
                assert(conn.rx@ =~= Seq::<u8>::empty());
            }
        }
        if again {
            self.read_again.push(slot);
        }
        assert(self.conns@ =~= old(self).conns@.update(slot as int, self.conns@[slot as int]));
        proof {
            lemma_slot_changed(*old(self), *self, slot as int, -1);
        }
        r
    }
}

/// What a connection's buffered input calls for.
#[derive(Debug)]
pub enum Work {
    /// There is no such connection.
    Gone,
    /// Read the framing headers of the head just parsed and pass the framing
    /// to [`Shard::framed`].
    Frame,
    /// Decode the buffered chunked input and pass it to [`Shard::decoded`].
    Decode,
    /// Send the interim response, then ask again.
    Continue,
    /// Answer a complete request, then ask again.
    Dispatch(Head),
    /// Answer an unreadable request and close.
    Reject(RequestError),
    /// Nothing more to do with the input; update the registered interest.
    Sync,
    /// The client stopped sending: close, counting this error.
    Close(Option<ErrorKind>),
}

/// What is left to do once the input of a connection cannot be processed any
/// further.
///
/// A client that stopped sending is treated as disconnected, which is what
/// lets an abandoned stream be dropped promptly; clients of this mock do not
/// half-close while awaiting a response.
pub open spec fn settled(conn: Connection) -> Work {
    if conn.eof {
        let idle = conn.reader.state is Head && conn.rx@.len() == 0;
        Work::Close(
            if conn.closing || conn.response is Some || idle {
                None
            } else {
                Some(ErrorKind::BadRequest)
            },
        )
    } else {
        Work::Sync
    }
}

/// What the reader's answer calls for.
pub open spec fn work_for(conn: Connection, progress: Result<Progress, RequestError>) -> Work {
    match progress {
        Ok(Progress::NeedMore) => settled(conn),
        Ok(Progress::Continue) => Work::Continue,
        Ok(Progress::Request(head)) => Work::Dispatch(head),
        Ok(Progress::Frame) => Work::Frame,
        Ok(Progress::Decode) => Work::Decode,
        Err(e) => Work::Reject(e),
    }
}

/// Only the reader and its buffer differ.
pub open spec fn same_but_input(before: Connection, after: Connection) -> bool {
    after == (Connection { rx: after.rx, reader: after.reader, ..before })
}

fn settle(conn: &Connection) -> (r: Work)
    ensures
        r == settled(*conn),
{
    if conn.eof {
        if conn.closing || conn.response.is_some() || conn.reader.is_idle(&conn.rx) {
            Work::Close(None)
        } else {
            Work::Close(Some(ErrorKind::BadRequest))
        }
    } else {
        Work::Sync
    }
}

fn work_after(conn: &Connection, progress: Result<Progress, RequestError>) -> (r: Work)
    ensures
        r == work_for(*conn, progress),
{
    match progress {
        Ok(Progress::NeedMore) => settle(conn),
        Ok(Progress::Continue) => Work::Continue,
        Ok(Progress::Request(head)) => Work::Dispatch(head),
        Ok(Progress::Frame) => Work::Frame,
        Ok(Progress::Decode) => Work::Decode,
        Err(e) => Work::Reject(e),
    }
}

impl Shard {
    /// Handles the buffered input of a connection up to the next thing the
    /// event loop has to do. Input behind a response in progress stays
    /// buffered.
    pub fn process(&mut self, slot: usize) -> (r: Work)
        requires
            old(self).wf(),
        ensures
            final(self).wf(),
            !old(self).live(slot as int) ==> r is Gone && *final(self) == *old(self),
            old(self).live(slot as int) ==> {
                let before = old(self).conn(slot as int);
                let after = final(self).conn(slot as int);
                if before.response is Some || before.closing {
                    r == settled(before) && *final(self) == *old(self)
                } else {
                    &&& final(self).differs_at(*old(self), slot as int)
                    &&& final(self).same_settings(*old(self))
                    &&& same_but_input(before, after)
                    &&& exists|progress: Result<Progress, RequestError>|
                        request::advance_step(
                            before.reader,
                            before.rx@,
                            after.reader,
                            after.rx@,
                            progress,
                        ) && r == #[trigger] work_for(after, progress)
                }
            },
    {
        if !self.is_live(slot) {
            return Work::Gone;
        }
        if let Some(conn) = &self.conns[slot] {
            if conn.response.is_some() || conn.closing {
                return settle(conn);
            }
        }
        let mut r = Work::Gone;
        if let Some(conn) = &mut self.conns[slot] {
            let ghost before = *conn;
            let progress = conn.reader.advance(&mut conn.rx);
            let ghost p = progress;
            r = work_after(conn, progress);
            assert(request::advance_step(before.reader, before.rx@, conn.reader, conn.rx@, p));
            assert(r == work_for(*conn, p));
        }
        assert(self.conns@ =~= old(self).conns@.update(slot as int, self.conns@[slot as int]));
        proof {
            lemma_slot_changed(*old(self), *self, slot as int, -1);
        }
        r
    }

    /// Goes on with a request whose framing headers have been read.
    pub fn framed(&mut self, slot: usize, framing: Result<BodyFraming, String>) -> (r: Work)
        requires
            old(self).wf(),
            framing != Ok::<BodyFraming, String>(BodyFraming::Unframed),
            old(self).live(slot as int) && !old(self).conn(slot as int).closing ==> old(self).conn(
                slot as int,
            ).reader.state is Framing,
        ensures
            final(self).wf(),
            if old(self).live(slot as int) && !old(self).conn(slot as int).closing {
                let before = old(self).conn(slot as int);
                let after = final(self).conn(slot as int);
                &&& final(self).differs_at(*old(self), slot as int)
                &&& final(self).same_settings(*old(self))
                &&& same_but_input(before, after)
                &&& exists|progress: Result<Progress, RequestError>|
                    request::framed_step(
                        before.reader,
                        before.rx@,
                        framing,
                        after.reader,
                        after.rx@,
                        progress,
                    ) && r == #[trigger] work_for(after, progress)
            } else {
                r is Gone && *final(self) == *old(self)
            },
    {
        if !self.is_live(slot) {
            return Work::Gone;
        }
        if let Some(conn) = &self.conns[slot] {
            if conn.closing {
                return Work::Gone;
            }
        }
        let mut r = Work::Gone;
        if let Some(conn) = &mut self.conns[slot] {
            let ghost before = *conn;
            let progress = conn.reader.framed(&mut conn.rx, framing);
            let ghost p = progress;
            r = work_after(conn, progress);
            assert(request::framed_step(
                before.reader,
                before.rx@,
                framing,
                conn.reader,
                conn.rx@,
                p,
            ));
            assert(r == work_for(*conn, p));
        }
        assert(self.conns@ =~= old(self).conns@.update(slot as int, self.conns@[slot as int]));
        proof {
            lemma_slot_changed(*old(self), *self, slot as int, -1);
        }
        r
    }

    /// Goes on with a chunked request whose buffered input decoded to `data`:
    /// `progress` tells how many bytes that took and whether the body ended,
    /// or why the encoding is malformed.
    pub fn decoded(
        &mut self,
        slot: usize,
        data: &[u8],
        progress: Result<(usize, bool), String>,
    ) -> (r: Work)
        requires
            old(self).wf(),
            old(self).live(slot as int) && !old(self).conn(slot as int).closing ==> {
                &&& old(self).conn(slot as int).reader.state is Chunked
                &&& progress matches Ok((consumed, _)) ==> consumed <= old(self).conn(
                    slot as int,
                ).rx@.len()
            },
        ensures
            final(self).wf(),
            if old(self).live(slot as int) && !old(self).conn(slot as int).closing {
                let before = old(self).conn(slot as int);
                let after = final(self).conn(slot as int);
                &&& final(self).differs_at(*old(self), slot as int)
                &&& final(self).same_settings(*old(self))
                &&& same_but_input(before, after)
                &&& exists|next: Result<Progress, RequestError>|
                    request::decoded_step(
                        before.reader,
                        before.rx@,
                        data@,
                        progress,
                        after.reader,
                        after.rx@,
                        next,
                    ) && r == #[trigger] work_for(after, next)
            } else {
                r is Gone && *final(self) == *old(self)
            },
    {
        if !self.is_live(slot) {
            return Work::Gone;
        }
        if let Some(conn) = &self.conns[slot] {
            if conn.closing {
                return Work::Gone;
            }
        }
        let mut r = Work::Gone;
        if let Some(conn) = &mut self.conns[slot] {
            let ghost before = *conn;
            let next = conn.reader.decoded(&mut conn.rx, data, progress);
            let ghost p = next;
            r = work_after(conn, next);
            assert(request::decoded_step(
                before.reader,
                before.rx@,
                data@,
                progress,
                conn.reader,
                conn.rx@,
                p,
            ));
            assert(r == work_for(*conn, p));
        }
        assert(self.conns@ =~= old(self).conns@.update(slot as int, self.conns@[slot as int]));
        proof {
            lemma_slot_changed(*old(self), *self, slot as int, -1);
        }
        r
    }

    /// Starts a graceful close: further input of the connection is ignored.
    /// Returns whether there is such a connection, whose socket is then to be
    /// shut down.
    pub fn begin_close(&mut self, slot: usize) -> (r: bool)
        requires
            old(self).wf(),
        ensures
            final(self).wf(),
            r == old(self).live(slot as int),
            !r ==> *final(self) == *old(self),
            r ==> {
                let before = old(self).conn(slot as int);
                let after = final(self).conn(slot as int);
                &&& final(self).differs_at(*old(self), slot as int)
                &&& final(self).same_settings(*old(self))
                &&& after.rx@.len() == 0
                &&& after == (Connection { rx: after.rx, closing: true, ..before })
            },
    {
        if !self.is_live(slot) {
            return false;
        }
        if let Some(conn) = &mut self.conns[slot] {
            conn.closing = true;
            conn.rx.clear();
        }
        assert(self.conns@ =~= old(self).conns@.update(slot as int, self.conns@[slot as int]));
        proof {
            lemma_slot_changed(*old(self), *self, slot as int, -1);
        }
        true
    }
}

/// What a socket that can be written again calls for.
#[derive(Debug, Clone, Copy, PartialEq, Eq, Structural)]
pub enum WriteOp {
    /// There is no such connection.
    Nothing,
    /// Write the pending output.
    Flush,
    /// Go on with the graceful close.
    Shutdown,
}

/// What follows a flush or shutdown.
#[derive(Debug, Clone, Copy, PartialEq, Eq, Structural)]
pub enum WriteNext {
    /// Close the connection.
    Close,
    /// Update the registered interest.
    Sync,
    /// Close after this error.
    Fail(IoError),
}

/// What follows a flush or shutdown that reported this; `done` means that
/// all output is written.
pub fn after_write(op: WriteOp, result: Result<bool, IoError>) -> (r: WriteNext)
    ensures
        r == (match result {
            Ok(done) => if done && op == WriteOp::Shutdown {
                WriteNext::Close
            } else {
                WriteNext::Sync
            },
            Err(err) => WriteNext::Fail(err),
        }),
{
    match result {
        Ok(done) => if done && op == WriteOp::Shutdown {
            WriteNext::Close
        } else {
            WriteNext::Sync
        },
        Err(err) => WriteNext::Fail(err),
    }
}

impl Shard {
    /// What a connection that can be written again calls for.
    pub fn on_writable(&self, slot: usize) -> (r: WriteOp)
        ensures
            r == (if !self.live(slot as int) {
                WriteOp::Nothing
            } else if self.conn(slot as int).closing {
                WriteOp::Shutdown
            } else {
                WriteOp::Flush
            }),
    {
        if slot >= self.conns.len() {
            return WriteOp::Nothing;
        }
        match &self.conns[slot] {
            Some(conn) => if conn.closing {
                WriteOp::Shutdown
            } else {
                WriteOp::Flush
            },
            None => WriteOp::Nothing,
        }
    }
}

/// Status, reason and error category of the answer to an unreadable request.
pub open spec fn rejection(err: RequestError) -> (u16, Seq<char>, ErrorKind) {
    match err {
        RequestError::HeadTooLarge => (
            431,
            "Request Header Fields Too Large"@,
            ErrorKind::HeadTooLarge,
        ),
        RequestError::BodyTooLarge => (413, "Content Too Large"@, ErrorKind::BodyTooLarge),
        RequestError::Version(_) => (505, "HTTP Version Not Supported"@, ErrorKind::BadRequest),
        RequestError::Head(_) | RequestError::Framing(_) => (
            400,
            "Bad Request"@,
            ErrorKind::BadRequest,
        ),
    }
}

/// The answer to an unreadable request, after which the connection closes.
pub fn reject(err: &RequestError, counters: &mut ShardCounters) -> (r: Reply)
    ensures
        r.is_json(
            rejection(*err).0,
            rejection(*err).1,
            response::error_body(err.text()),
            false,
        ),
        r.marker_at is None,
        *final(counters) == old(counters).counting(Event::Error(rejection(*err).2)),
{
    let (status, reason, kind): (u16, &'static str, ErrorKind) = match err {
        RequestError::HeadTooLarge => (
            431,
            "Request Header Fields Too Large",
            ErrorKind::HeadTooLarge,
        ),
        RequestError::BodyTooLarge => (413, "Content Too Large", ErrorKind::BodyTooLarge),
        RequestError::Version(_) => (505, "HTTP Version Not Supported", ErrorKind::BadRequest),
        RequestError::Head(_) | RequestError::Framing(_) => (
            400,
            "Bad Request",
            ErrorKind::BadRequest,
        ),
    };
    counters.error(kind);
    error_reply(status, reason, err.message().as_str(), false)
}

/// What a complete request calls for.
#[derive(Debug)]
pub enum Dispatched {
    /// A chat completion: inspect the body.
    Inspect,
    /// Answer with the counters.
    Stats,
    /// Restart the counters, then send this.
    Reset(Reply),
    /// Send this.
    Reply(Reply),
}

/// The counters after a complete request has been routed.
pub open spec fn routed_counts(counters: ShardCounters, head: Head) -> ShardCounters {
    let received = if head.route == Route::Stats || head.route == Route::Reset {
        counters
    } else {
        counters.counting(Event::Request)
    };
    match (head.route, head.method) {
        (Route::ChatCompletions, Method::Post) => received,
        (Route::Models, Method::Get) => received,
        (Route::Stats, Method::Get) => received,
        (Route::Reset, Method::Post) => received,
        (Route::Unknown, _) => received.counting(Event::Error(ErrorKind::NotFound)),
        _ => received.counting(Event::Error(ErrorKind::MethodNotAllowed)),
    }
}

/// What a complete request calls for on a server of `model`.
pub open spec fn routes_to(head: Head, model: Seq<char>, r: Dispatched) -> bool {
    match (head.route, head.method) {
        (Route::ChatCompletions, Method::Post) => r is Inspect,
        (Route::Models, Method::Get) => r matches Dispatched::Reply(reply) && reply.is_json(
            200,
            "OK"@,
            response::models_text(model),
            head.keep_alive,
        ),
        (Route::Stats, Method::Get) => r is Stats,
        (Route::Reset, Method::Post) => r matches Dispatched::Reset(reply) && reply.head.says(
            204,
            "No Content"@,
            response::with_connection(Seq::empty(), head.keep_alive),
            BodyFraming::Unframed,
        ) && reply.body@.len() == 0,
        (Route::Unknown, _) => r matches Dispatched::Reply(reply) && reply.is_json(
            404,
            "Not Found"@,
            response::error_body("unknown path"@),
            head.keep_alive,
        ),
        _ => r matches Dispatched::Reply(reply) && reply.is_json(
            405,
            "Method Not Allowed"@,
            response::error_body("method not allowed for this path"@),
            head.keep_alive,
        ),
    }
}

impl Shard {
    /// Routes a complete request.
    pub fn dispatch(&self, head: Head, counters: &mut ShardCounters) -> (r: Dispatched)
        ensures
            routes_to(head, self.model@, r),
            r matches Dispatched::Reply(reply) ==> reply.marker_at is None,
            r matches Dispatched::Reset(reply) ==> reply.marker_at is None,
            *final(counters) == routed_counts(*old(counters), head),
    {
        let keep_alive = head.keep_alive;
        if !matches!(head.route, Route::Stats | Route::Reset) {
            counters.request();
        }
        match (head.route, head.method) {
            (Route::ChatCompletions, Method::Post) => Dispatched::Inspect,
            (Route::Models, Method::Get) => Dispatched::Reply(
                json_reply(200, "OK", models_body(self.model.as_str()), keep_alive),
            ),
            (Route::Stats, Method::Get) => Dispatched::Stats,
            (Route::Reset, Method::Post) => Dispatched::Reset(no_content_reply(keep_alive)),
            (Route::Unknown, _) => {
                counters.error(ErrorKind::NotFound);
                Dispatched::Reply(error_reply(404, "Not Found", "unknown path", keep_alive))
            },
            _ => {
                counters.error(ErrorKind::MethodNotAllowed);
                Dispatched::Reply(
                    error_reply(
                        405,
                        "Method Not Allowed",
                        "method not allowed for this path",
                        keep_alive,
                    ),
                )
            },
        }
    }
}

/// The read lag of a request parsed at `t0`: how long ago the kernel received
/// its last segment, which is `received_ns` where the receive that completed
/// the request carries a timestamp. Requests of the bench endpoints are not
/// sampled.
pub open spec fn read_lag_sample(head: Head, received_ns: Option<u64>, t0: u64) -> Option<u64> {
    match received_ns {
        Some(at) if head.route != Route::Stats && head.route != Route::Reset => Some(
            if t0 > at {
                (t0 - at) as u64
            } else {
                0
            },
        ),
        _ => None,
    }
}

/// Counts the read lag of a request that became complete on the receive that
/// came with `received_ns`. A request that was pipelined behind another
/// response has no such receive: its wait was set by that response.
pub fn sample_read_lag(
    head: Head,
    received_ns: Option<u64>,
    t0: u64,
    counters: &mut ShardCounters,
)
    ensures
        match read_lag_sample(head, received_ns, t0) {
            Some(lag) => final(counters).has_lag_of(*old(counters), lag),
            None => *final(counters) == *old(counters),
        },
{
    if matches!(head.route, Route::Stats | Route::Reset) {
        return;
    }
    if let Some(at) = received_ns {
        counters.read_lag(t0.saturating_sub(at));
    }
}

impl Shard {
    /// Routes a request that was complete at `t0` and counts its read lag:
    /// one sample for every request of the API that became complete on a
    /// receive with a timestamp.
    pub fn dispatch_sampled(
        &self,
        head: Head,
        received_ns: Option<u64>,
        t0: u64,
        counters: &mut ShardCounters,
    ) -> (r: Dispatched)
        ensures
            routes_to(head, self.model@, r),
            r matches Dispatched::Reply(reply) ==> reply.marker_at is None,
            r matches Dispatched::Reset(reply) ==> reply.marker_at is None,
            match read_lag_sample(head, received_ns, t0) {
                Some(lag) => final(counters).has_lag_of(routed_counts(*old(counters), head), lag),
                None => *final(counters) == routed_counts(*old(counters), head),
            },
    {
        let dispatched = self.dispatch(head, counters);
        sample_read_lag(head, received_ns, t0, counters);
        dispatched
    }
}

/// A complete request of the API that came with a timestamp is counted once
/// and adds exactly its read lag to the samples; one without a timestamp, or
/// of a bench endpoint, adds none.
pub proof fn law_every_api_request_is_sampled_once(
    before: ShardCounters,
    head: Head,
    received_ns: Option<u64>,
    t0: u64,
    after: ShardCounters,
)
    requires
        histogram::has_room(before.read_lag, 1),
        match read_lag_sample(head, received_ns, t0) {
            Some(lag) => after.has_lag_of(routed_counts(before, head), lag),
            None => after == routed_counts(before, head),
        },
    ensures
        ({
            let api = head.route != Route::Stats && head.route != Route::Reset;
            let lags = histogram::histogram_samples(before.read_lag);
            &&& after.requests == if api {
                before.counting(Event::Request).requests
            } else {
                before.requests
            }
            &&& histogram::histogram_samples(after.read_lag) == if api && received_ns is Some {
                lags.insert(
                    histogram::histogram_bucket(
                        histogram::histogram_bounds(before.read_lag),
                        time::floored(t0 - received_ns->Some_0),
                    ),
                )
            } else {
                lags
            }
        }),
{
}

/// The answer to a request whose directive is unacceptable, for the reason
/// given.
pub fn bad_directive(why: &str, keep_alive: bool, counters: &mut ShardCounters) -> (r: Reply)
    ensures
        r.is_json(
            400,
            "Bad Request"@,
            response::error_body("invalid bench directive: "@ + why@),
            keep_alive,
        ),
        r.marker_at is None,
        *final(counters) == old(counters).counting(Event::Error(ErrorKind::BadDirective)),
{
    counters.error(ErrorKind::BadDirective);
    let mut message = String::from_str("invalid bench directive: ");
    message.append(why);
    error_reply(400, "Bad Request", message.as_str(), keep_alive)
}

/// What a step of a body inspection calls for.
#[derive(Debug, Clone, Copy, PartialEq, Eq, Structural)]
pub enum InspectNext {
    /// The connection is gone.
    Gone,
    /// Take another step; emissions may be fired first.
    Again,
    /// The inspection is complete.
    Found(Inspected),
}

impl Shard {
    /// The body of the request that the connection in this slot has read.
    pub open spec fn body_at(self, slot: int) -> Seq<u8> {
        self.conn(slot).reader.spec_body(self.conn(slot).rx@)
    }

    /// There is a connection in this slot that reads requests.
    pub open spec fn is_reading(self, slot: int) -> bool {
        self.live(slot) && !self.conn(slot).closing
    }

    /// Starts inspecting a body. Returns whether another inspection is in
    /// progress, during which nothing is fired.
    pub fn begin_inspection(&mut self) -> (nested: bool)
        ensures
            nested == old(self).inspecting,
            *final(self) == (Shard { inspecting: true, ..*old(self) }),
    {
        let nested = self.inspecting;
        self.inspecting = true;
        nested
    }

    /// Ends an inspection started with this result.
    pub fn end_inspection(&mut self, nested: bool)
        ensures
            *final(self) == (Shard { inspecting: nested, ..*old(self) }),
    {
        self.inspecting = nested;
    }

    /// The body of the request that a connection has read.
    pub fn request_body(&self, slot: usize) -> (r: Option<&[u8]>)
        requires
            self.wf(),
        ensures
            match r {
                Some(body) => self.is_reading(slot as int) && body@ == self.body_at(slot as int),
                None => !self.is_reading(slot as int),
            },
    {
        if slot >= self.conns.len() {
            return None;
        }
        match &self.conns[slot] {
            Some(conn) => {
                assert(self.live(slot as int));
                if conn.closing {
                    None
                } else {
                    Some(conn.reader.body(&conn.rx))
                }
            },
            None => None,
        }
    }

    /// Scans the next window of a chat request body. Only streams of other
    /// connections can fire between two steps: this one has no response,
    /// hence nothing scheduled.
    pub fn inspect_step(&self, slot: usize, inspector: &mut Inspector) -> (r: InspectNext)
        requires
            self.wf(),
            self.is_reading(slot as int) ==> old(inspector).pos <= self.body_at(slot as int).len(),
        ensures
            if self.is_reading(slot as int) {
                let body = self.body_at(slot as int);
                &&& *final(inspector) == old(inspector).after_window(body)
                &&& final(inspector).pos <= body.len()
                &&& r == (if final(inspector).pos < body.len() && !final(inspector).resolved() {
                    InspectNext::Again
                } else {
                    InspectNext::Found(final(inspector).found(body.len()))
                })
            } else {
                r == InspectNext::Gone && *final(inspector) == *old(inspector)
            },
    {
        match self.request_body(slot) {
            Some(body) => match inspector.step(body) {
                Some(found) => InspectNext::Found(found),
                None => InspectNext::Again,
            },
            None => InspectNext::Gone,
        }
    }

    /// Ends the inspection of a chat request body and discards the body so
    /// it is not held for the length of the response. `params` is what the
    /// directive says, or why it is invalid. Returns the request or why its
    /// directive is unacceptable, and `None` if the connection is gone.
    pub fn finish_inspection(
        &mut self,
        slot: usize,
        found: Inspected,
        params: Result<Option<BenchParams>, String>,
    ) -> (r: Option<Result<ChatRequest, String>>)
        requires
            old(self).wf(),
        ensures
            final(self).wf(),
            !old(self).is_reading(slot as int) ==> r is None && *final(self) == *old(self),
            old(self).is_reading(slot as int) ==> {
                let before = old(self).conn(slot as int);
                let after = final(self).conn(slot as int);
                &&& final(self).differs_at(*old(self), slot as int)
                &&& final(self).same_settings(*old(self))
                &&& same_but_input(before, after)
                &&& after.rx@ == request::pending_input(before.reader.state, before.rx@)
                &&& before.reader.state is Complete ==> after.reader.state == State::Head
                    && after.reader.chunked_body@.len() == 0
                &&& !(before.reader.state is Complete) ==> after.reader == before.reader
                &&& match params {
                    Err(why) => r == Some(Err::<ChatRequest, String>(why)),
                    Ok(params) => match params {
                        Some(p) if crate::mock::server::exceeded(p) is Some => r
                            matches Some(Err(why)) && why@ == crate::mock::server::exceeded(
                            p,
                        )->Some_0.text(),
                        _ => r == Some(
                            Ok::<ChatRequest, String>(
                                ChatRequest {
                                    params,
                                    stream: found.stream,
                                    include_usage: found.include_usage,
                                    body_len: found.body_len,
                                },
                            ),
                        ),
                    },
                }
            },
    {
        if self.request_body(slot).is_none() {
            return None;
        }
        if let Some(conn) = &mut self.conns[slot] {
            conn.reader.finish(&mut conn.rx);
        }
        assert(self.conns@ =~= old(self).conns@.update(slot as int, self.conns@[slot as int]));
        proof {
            lemma_slot_changed(*old(self), *self, slot as int, -1);
        }
        let params = match params {
            Ok(params) => params,
            Err(why) => {
                return Some(Err(why));
            },
        };
        if let Some(p) = params {
            if let Err(e) = check_limits(&p) {
                return Some(Err(e.message()));
            }
        }
        Some(Ok(found.with_params(params)))
    }
}

/// The timing and identity of a response about to start.
#[derive(Debug, Clone, Copy, PartialEq, Eq, Structural)]
pub struct ResponsePlan {
    /// Its id.
    pub id: u64,
    /// Parameters in effect.
    pub params: BenchParams,
    /// When its first emission is due.
    pub t_first: u64,
}

/// When the first emission of a request complete at `t0` is due.
pub open spec fn first_emission(t0: u64, params: BenchParams) -> u64 {
    time::capped(t0 + time::capped(params.ttft_us * 1_000))
}

/// The response that starts with this plan.
pub open spec fn starts_as(
    response: Response,
    plan: ResponsePlan,
    chat: ChatRequest,
    keep_alive: bool,
    created_unix_s: u64,
    model: Seq<char>,
) -> bool {
    &&& response.id == plan.id
    &&& response.keep_alive == keep_alive
    &&& match response.kind {
        ResponseKind::Stream { template, params, t_first, tail_usage } => {
            &&& chat.stream
            &&& template.common@ == response::common_members(plan.params.sid, created_unix_s, model)
            &&& params == plan.params
            &&& t_first == plan.t_first
            &&& tail_usage == (if chat.include_usage {
                Some(
                    Usage {
                        prompt_tokens: ((chat.body_len + 3) / 4) as u64,
                        completion_tokens: plan.params.chunks as u64,
                    },
                )
            } else {
                None
            })
        },
        ResponseKind::Completion { params, created_unix_s: created, usage } => {
            &&& !chat.stream
            &&& params == plan.params
            &&& created == created_unix_s
            &&& usage == (Usage {
                prompt_tokens: ((chat.body_len + 3) / 4) as u64,
                completion_tokens: ((plan.params.resp_bytes + 3) / 4) as u64,
            })
        },
    }
}

/// What firing an entry calls for.
#[derive(Debug, Clone, Copy, PartialEq, Eq, Structural)]
pub enum Firing {
    /// The entry belongs to no response in progress.
    Stale,
    /// Write a content chunk with this marker.
    Chunk {
        /// The marker, without its write time.
        marker: wire::Marker,
        /// Content bytes.
        chunk_bytes: u32,
    },
    /// Write the end of a stream without content.
    Tail,
    /// Write a complete response with this marker.
    Completion {
        /// The marker, without its write time.
        marker: wire::Marker,
        /// Content bytes.
        resp_bytes: u32,
    },
}

/// What firing `entry` into this response calls for.
pub open spec fn firing_of(response: Response, entry: Entry) -> Firing {
    match response.kind {
        ResponseKind::Stream { params, .. } => if entry.seq < params.chunks {
            Firing::Chunk {
                marker: wire::Marker {
                    sid: params.sid,
                    seq: entry.seq,
                    t_sched: entry.t_sched,
                    t_write: 0,
                },
                chunk_bytes: params.chunk_bytes,
            }
        } else {
            Firing::Tail
        },
        ResponseKind::Completion { params, .. } => Firing::Completion {
            marker: wire::Marker { sid: params.sid, seq: 0, t_sched: entry.t_sched, t_write: 0 },
            resp_bytes: params.resp_bytes,
        },
    }
}

/// The entry of the chunk after `entry`, if its stream has one.
pub open spec fn next_entry(response: Response, entry: Entry) -> Option<Entry> {
    match response.kind {
        ResponseKind::Stream { params, t_first, .. } => if entry.seq + 1 < params.chunks {
            Some(
                Entry {
                    t_sched: time::capped(
                        t_first + params.interval_us * 1_000 * (entry.seq + 1),
                    ),
                    seq: (entry.seq + 1) as u32,
                    ..entry
                },
            )
        } else {
            None
        },
        ResponseKind::Completion { .. } => None,
    }
}

/// `after` is `before` with one more entry at its place.
pub open spec fn gains_entry(before: Seq<Entry>, after: Seq<Entry>, entry: Entry) -> bool {
    exists|at: int| 0 <= at <= before.len() && #[trigger] before.insert(at, entry) == after
}

/// Adding the one entry of a response that lacked it keeps the invariant.
proof fn lemma_entry_added(before: Shard, after: Shard, entry: Entry)
    requires
        before.holds_popped(entry),
        after.conns@ == before.conns@,
        after.free@ == before.free@,
        after.next_response_id == before.next_response_id,
        after.schedule.wf(),
        gains_entry(before.schedule.entries@, after.schedule.entries@, entry),
    ensures
        after.wf(),
{
    let old_entries = before.schedule.entries@;
    let new_entries = after.schedule.entries@;
    let at = choose|at: int|
        0 <= at <= old_entries.len() && #[trigger] old_entries.insert(at, entry) == new_entries;
    assert forall|s: int| #[trigger] after.live(s) == before.live(s) by {}
    assert forall|s: int| #[trigger] after.response_id(s) == before.response_id(s) by {}
    assert forall|e: Entry| #[trigger] after.is_planned(e) == before.is_planned(e) by {}
    assert forall|i: int| 0 <= i < new_entries.len() implies after.response_id(
        (#[trigger] new_entries[i]).slot as int,
    ) == Some(new_entries[i].stream) && after.is_planned(new_entries[i]) by {
        if i < at {
            assert(new_entries[i] == old_entries[i]);
        } else if i > at {
            assert(new_entries[i] == old_entries[i - 1]);
        }
    }
    assert forall|i: int, j: int| 0 <= i < j < new_entries.len() implies (
    #[trigger] new_entries[i]).stream != (#[trigger] new_entries[j]).stream by {
        let a = if i < at {
            i
        } else {
            i - 1
        };
        let b = if j < at {
            j
        } else {
            j - 1
        };
        if i != at {
            assert(new_entries[i] == old_entries[a]);
        }
        if j != at {
            assert(new_entries[j] == old_entries[b]);
        }
        if i == at {
            assert(old_entries[b].stream != entry.stream);
        } else if j == at {
            assert(old_entries[a].stream != entry.stream);
        } else {
            assert(old_entries[a].stream != old_entries[b].stream);
        }
    }
    assert forall|s: int| (#[trigger] after.response_id(s)) is Some implies after.is_scheduled(
        after.response_id(s)->Some_0,
    ) by {
        let id = before.response_id(s)->Some_0;
        if s == entry.slot {
            assert(new_entries[at].stream == id);
        } else {
            assert(before.is_scheduled(id));
            let k = choose|k: int|
                0 <= k < old_entries.len() && (#[trigger] old_entries[k]).stream == id;
            if k < at {
                assert(new_entries[k].stream == id);
            } else {
                assert(new_entries[k + 1].stream == id);
            }
        }
    }
}

impl Shard {
    /// No response in progress has this id, and none will get it.
    pub open spec fn is_unused(self, id: u64) -> bool {
        id < self.next_response_id && forall|s: int| #[trigger] self.response_id(s) != Some(id)
    }

    /// Draws up the response to a request complete at `t0`; its first
    /// emission is due at t0 + ttft.
    pub fn plan_response(&mut self, chat: &ChatRequest, t0: u64) -> (r: ResponsePlan)
        requires
            old(self).wf(),
            old(self).next_response_id < u64::MAX,
        ensures
            final(self).wf(),
            *final(self) == (Shard {
                next_response_id: (old(self).next_response_id + 1) as u64,
                ..*old(self)
            }),
            r.id == old(self).next_response_id,
            final(self).is_unused(r.id),
            r.params == (match chat.params {
                Some(params) => params,
                None => old(self).defaults,
            }),
            r.t_first == first_emission(t0, r.params),
    {
        let params = match chat.params {
            Some(params) => params,
            None => self.defaults,
        };
        let t_first: u64 = t0.saturating_add(saturating_product(params.ttft_us, 1_000));
        let id: u64 = self.next_response_id;
        self.next_response_id = id + 1;
        proof {
            assert forall|s: int| #[trigger] self.live(s) == old(self).live(s) by {}
            assert forall|s: int| #[trigger] self.response_id(s) == old(self).response_id(s) by {}
            assert forall|e: Entry| #[trigger] self.is_planned(e) == old(self).is_planned(e) by {}
            assert forall|i: u64| #[trigger] self.is_scheduled(i) == old(self).is_scheduled(i) by {}
        }
        ResponsePlan { id, params, t_first }
    }

    /// Starts a planned response on a connection that has none, and
    /// schedules its first emission. The head of a stream has been sent by
    /// then.
    pub fn start_response(
        &mut self,
        slot: usize,
        plan: ResponsePlan,
        chat: &ChatRequest,
        keep_alive: bool,
        created_unix_s: u64,
        counters: &mut ShardCounters,
    )
        requires
            old(self).wf(),
            old(self).live(slot as int),
            old(self).conn(slot as int).response is None,
            old(self).is_unused(plan.id),
        ensures
            final(self).wf(),
            final(self).same_settings(*old(self)),
            final(self).free@ == old(self).free@,
            final(self).live(slot as int),
            final(self).conns@ == old(self).conns@.update(slot as int, final(self).conns@[slot as int]),
            ({
                let before = old(self).conn(slot as int);
                let after = final(self).conn(slot as int);
                &&& after == (Connection { response: after.response, ..before })
                &&& after.response matches Some(response) && starts_as(
                    response,
                    plan,
                    *chat,
                    keep_alive,
                    created_unix_s,
                    old(self).model@,
                )
            }),
            gains_entry(
                old(self).schedule.entries@,
                final(self).schedule.entries@,
                Entry { t_sched: plan.t_first, stream: plan.id, seq: 0, slot },
            ),
            *final(counters) == (if chat.stream {
                old(counters).counting(Event::StreamStarted)
            } else {
                *old(counters)
            }),
    {
        let kind = if chat.stream {
            counters.stream_started();
            ResponseKind::Stream {
                template: StreamTemplate::new(
                    plan.params.sid,
                    created_unix_s,
                    self.model.as_str(),
                ),
                params: plan.params,
                t_first: plan.t_first,
                tail_usage: if chat.include_usage {
                    Some(Usage::estimate(chat.body_len, plan.params.chunks as u64))
                } else {
                    None
                },
            }
        } else {
            let whole: u32 = plan.params.resp_bytes / 4;
            let rest: u32 = if plan.params.resp_bytes % 4 == 0 {
                0
            } else {
                1
            };
            ResponseKind::Completion {
                params: plan.params,
                created_unix_s,
                usage: Usage::estimate(chat.body_len, (whole + rest) as u64),
            }
        };
        let response = Response { id: plan.id, keep_alive, kind };
        assert(response.wf());
        if let Some(conn) = &mut self.conns[slot] {
            conn.response = Some(response);
        }
        let ghost mid = *self;
        let entry = Entry { t_sched: plan.t_first, stream: plan.id, seq: 0, slot };
        proof {
            assert(mid.conns@ =~= old(self).conns@.update(slot as int, mid.conns@[slot as int]));
            assert forall|s: int| #[trigger] mid.live(s) == old(self).live(s) by {}
            assert forall|s: int| s != slot implies #[trigger] mid.response_id(s) == old(
                self).response_id(s) by {}
            assert(mid.response_id(slot as int) == Some(plan.id));
            assert(old(self).response_id(slot as int) is None);
            assert forall|s: int| #[trigger] mid.live(s) implies mid.conn(s).wf() by {
                assert(old(self).live(s));
            }
            assert forall|i: int| 0 <= i < mid.schedule.entries@.len() implies mid.response_id(
                (#[trigger] mid.schedule.entries@[i]).slot as int,
            ) == Some(mid.schedule.entries@[i].stream) && mid.is_planned(
                mid.schedule.entries@[i],
            ) by {
                let e = old(self).schedule.entries@[i];
                assert(old(self).response_id(e.slot as int) == Some(e.stream));
                assert(old(self).is_planned(e));
            }
            assert forall|s: int|
                s != slot && (#[trigger] mid.response_id(s)) is Some implies mid.is_scheduled(
                mid.response_id(s)->Some_0,
            ) by {
                assert(old(self).is_scheduled(old(self).response_id(s)->Some_0));
            }
            assert(!mid.is_scheduled(plan.id)) by {
                if mid.is_scheduled(plan.id) {
                    let k = choose|k: int|
                        0 <= k < mid.schedule.entries@.len() && (
                        #[trigger] mid.schedule.entries@[k]).stream == plan.id;
                    assert(old(self).response_id(old(self).schedule.entries@[k].slot as int)
                        == Some(plan.id));
                }
            }
            assert(plan.params.interval_us * 1_000 * entry.seq == 0) by (nonlinear_arith)
                requires
                    entry.seq == 0,
            ;
            assert(mid.is_planned(entry));
            assert(mid.wf_but(slot as int));
            assert(mid.holds_popped(entry));
        }
        self.schedule.push(entry);
        proof {
            assert(gains_entry(mid.schedule.entries@, self.schedule.entries@, entry));
            lemma_entry_added(mid, *self, entry);
        }
    }

    /// When the earliest emission is due.
    pub fn next_emission(&self) -> (r: Option<u64>)
        requires
            self.wf(),
        ensures
            r is None <==> self.schedule.entries@.len() == 0,
            r matches Some(t) ==> (exists|i: int|
                0 <= i < self.schedule.entries@.len() && (
                #[trigger] self.schedule.entries@[i]).t_sched == t) && forall|i: int|
                0 <= i < self.schedule.entries@.len() ==> t <= (
                #[trigger] self.schedule.entries@[i]).t_sched,
    {
        match self.schedule.peek() {
            Some(entry) => {
                proof {
                    let n = self.schedule.entries@.len() - 1;
                    assert(self.schedule.entries@[n].t_sched == entry.t_sched);
                }
                Some(entry.t_sched)
            },
            None => None,
        }
    }

    /// Whether the earliest emission is within the commit window at `now`:
    /// the shard then stops serving sockets and spins to it.
    pub fn is_emission_due(&self, now: u64, commit_ns: u64) -> (r: bool)
        requires
            self.wf(),
        ensures
            r <==> exists|i: int|
                0 <= i < self.schedule.entries@.len() && (
                #[trigger] self.schedule.entries@[i]).t_sched <= now + commit_ns,
    {
        match self.next_emission() {
            Some(at) => at.saturating_sub(now) <= commit_ns,
            None => false,
        }
    }

    /// Takes the earliest emission out of the schedule to fire it. By the
    /// invariant it belongs to the response its connection is producing.
    pub fn pop_emission(&mut self) -> (r: Option<Entry>)
        requires
            old(self).wf(),
        ensures
            final(self).conns@ == old(self).conns@,
            final(self).free@ == old(self).free@,
            final(self).same_settings(*old(self)),
            r is None ==> final(self).wf() && old(self).schedule.entries@.len() == 0
                && final(self).schedule.entries@.len() == 0,
            r matches Some(entry) ==> {
                &&& old(self).schedule.entries@ == final(self).schedule.entries@.push(entry)
                &&& final(self).holds_popped(entry)
                &&& forall|i: int|
                    0 <= i < final(self).schedule.entries@.len() ==> entry.not_after(
                        #[trigger] final(self).schedule.entries@[i],
                    )
            },
    {
        let r = self.schedule.pop();
        proof {
            assert forall|s: int| #[trigger] self.live(s) == old(self).live(s) by {}
            assert forall|s: int| #[trigger] self.response_id(s) == old(self).response_id(s) by {}
            assert forall|e: Entry| #[trigger] self.is_planned(e) == old(self).is_planned(e) by {}
            let before = old(self).schedule.entries@;
            let after = self.schedule.entries@;
            match r {
                Some(entry) => {
                    let last = before.len() - 1;
                    assert(before[last] == entry);
                    assert forall|i: int| 0 <= i < after.len() implies #[trigger] after[i]
                        == before[i] by {}
                    assert(!self.is_scheduled(entry.stream)) by {
                        if self.is_scheduled(entry.stream) {
                            let k = choose|k: int|
                                0 <= k < after.len() && (#[trigger] after[k]).stream
                                    == entry.stream;
                            assert(before[k].stream != before[last].stream);
                        }
                    }
                    assert forall|s: int|
                        s != entry.slot && (
                        #[trigger] self.response_id(s)) is Some implies self.is_scheduled(
                        self.response_id(s)->Some_0,
                    ) by {
                        let id = old(self).response_id(s)->Some_0;
                        assert(old(self).is_scheduled(id));
                        let k = choose|k: int|
                            0 <= k < before.len() && (#[trigger] before[k]).stream == id;
                        if k == last {
                            assert(old(self).response_id(entry.slot as int) == Some(id));
                            assert(old(self).response_id(s) != old(self).response_id(
                                entry.slot as int,
                            ));
                        }
                        assert(after[k].stream == id);
                    }
                    assert(schedule::one_per_stream(after)) by {
                        assert forall|i: int, j: int| 0 <= i < j < after.len() implies (
                        #[trigger] after[i]).stream != (#[trigger] after[j]).stream by {
                            assert(before[i].stream != before[j].stream);
                        }
                    }
                },
                None => {
                    assert forall|i: u64| #[trigger] self.is_scheduled(i) == old(
                        self).is_scheduled(i) by {}
                },
            }
        }
        r
    }

    /// What firing an entry calls for.
    pub fn firing(&self, entry: Entry) -> (r: Firing)
        ensures
            r == (if self.response_id(entry.slot as int) == Some(entry.stream) {
                firing_of(self.conn(entry.slot as int).response->Some_0, entry)
            } else {
                Firing::Stale
            }),
            r matches Firing::Chunk { marker, .. } ==> marker.t_sched == entry.t_sched,
            r matches Firing::Completion { marker, .. } ==> marker.t_sched == entry.t_sched,
    {
        if entry.slot >= self.conns.len() {
            return Firing::Stale;
        }
        let response = match &self.conns[entry.slot] {
            Some(conn) => match &conn.response {
                Some(response) => response,
                None => {
                    return Firing::Stale;
                },
            },
            None => {
                return Firing::Stale;
            },
        };
        assert(self.live(entry.slot as int));
        if response.id != entry.stream {
            return Firing::Stale;
        }
        match &response.kind {
            ResponseKind::Stream { params, .. } => if entry.seq < params.chunks {
                Firing::Chunk {
                    marker: wire::Marker {
                        sid: params.sid,
                        seq: entry.seq,
                        t_sched: entry.t_sched,
                        t_write: 0,
                    },
                    chunk_bytes: params.chunk_bytes,
                }
            } else {
                Firing::Tail
            },
            ResponseKind::Completion { params, .. } => Firing::Completion {
                marker: wire::Marker {
                    sid: params.sid,
                    seq: 0,
                    t_sched: entry.t_sched,
                    t_write: 0,
                },
                resp_bytes: params.resp_bytes,
            },
        }
    }
}

/// The bytes of chunk `seq` with this content.
pub open spec fn chunk_bytes_of(response: Response, seq: u32, content: Seq<u8>) -> Seq<u8> {
    match response.kind {
        ResponseKind::Stream { template, .. } => wire::chunk_frame(
            response::content_event(template.common@, seq == 0, content),
        ),
        ResponseKind::Completion { .. } => Seq::empty(),
    }
}

/// The bytes that end a stream.
pub open spec fn tail_bytes_of(response: Response) -> Seq<u8> {
    match response.kind {
        ResponseKind::Stream { template, tail_usage, .. } => response::stream_tail(
            template.common@,
            tail_usage,
        ),
        ResponseKind::Completion { .. } => Seq::empty(),
    }
}

/// The complete response with this content.
pub open spec fn completion_of(
    response: Response,
    content: Seq<u8>,
    model: Seq<char>,
    reply: Reply,
) -> bool {
    match response.kind {
        ResponseKind::Stream { .. } => false,
        ResponseKind::Completion { params, created_unix_s, usage } => {
            &&& reply.is_json(
                200,
                "OK"@,
                response::completion_open(params.sid, created_unix_s, model) + content
                    + response::completion_close(usage),
                response.keep_alive,
            )
            &&& reply.marker_at == (if content.len() >= wire::MARKER_LEN {
                Some(response::completion_open(params.sid, created_unix_s, model).len() as usize)
            } else {
                None
            })
        },
    }
}

impl Shard {
    /// The connection in this slot is producing a stream.
    pub open spec fn is_streaming(self, slot: int) -> bool {
        self.response_id(slot) is Some && self.conn(slot).response->Some_0.is_stream()
    }

    /// Builds chunk `seq` of a stream in `out` and returns the offset of
    /// `content`, which starts with the marker.
    pub fn chunk_event(&self, slot: usize, seq: u32, content: &[u8], out: &mut Vec<u8>) -> (at:
        usize)
        requires
            self.is_streaming(slot as int),
        ensures
            final(out)@ == chunk_bytes_of(
                self.conn(slot as int).response->Some_0,
                seq,
                content@,
            ),
            at + content@.len() <= final(out)@.len(),
            final(out)@.subrange(at as int, at + content@.len()) == content@,
    {
        out.clear();
        if let Some(conn) = &self.conns[slot] {
            if let Some(response) = &conn.response {
                if let ResponseKind::Stream { template, .. } = &response.kind {
                    let at: usize = template.append_content_event(out, seq, content);
                    assert(out@ =~= chunk_bytes_of(*response, seq, content@));
                    return at;
                }
            }
        }
        0
    }

    /// Builds the end of a stream in `out`.
    pub fn tail_event(&self, slot: usize, out: &mut Vec<u8>)
        requires
            self.wf_but(slot as int),
            self.is_streaming(slot as int),
        ensures
            final(out)@ == tail_bytes_of(self.conn(slot as int).response->Some_0),
    {
        out.clear();
        assert(self.live(slot as int));
        if let Some(conn) = &self.conns[slot] {
            if let Some(response) = &conn.response {
                if let ResponseKind::Stream { template, tail_usage, .. } = &response.kind {
                    assert(conn.wf());
                    template.append_tail(out, *tail_usage);
                    assert(out@ =~= tail_bytes_of(*response));
                }
            }
        }
    }

    /// Builds the complete response of a connection that is not streaming.
    pub fn completion_event(&self, slot: usize, content: &[u8]) -> (r: Reply)
        requires
            self.wf_but(slot as int),
            self.response_id(slot as int) is Some,
            !self.is_streaming(slot as int),
        ensures
            completion_of(
                self.conn(slot as int).response->Some_0,
                content@,
                self.model@,
                r,
            ),
    {
        assert(self.live(slot as int));
        if let Some(conn) = &self.conns[slot] {
            if let Some(response) = &conn.response {
                if let ResponseKind::Completion { params, created_unix_s, usage } =
                    &response.kind {
                    assert(conn.wf());
                    return response::completion_reply(
                        params.sid,
                        content,
                        *created_unix_s,
                        self.model.as_str(),
                        *usage,
                        response.keep_alive,
                    );
                }
            }
        }
        no_content_reply(true)
    }

    /// Takes in that the chunk of a fired entry was written: schedules the
    /// next one, or reports that the stream's content is complete and only
    /// its tail is left to write.
    pub fn chunk_sent(&mut self, entry: Entry, counters: &mut ShardCounters) -> (last: bool)
        requires
            old(self).holds_popped(entry),
            old(self).is_streaming(entry.slot as int),
        ensures
            final(self).conns@ == old(self).conns@,
            final(self).free@ == old(self).free@,
            final(self).same_settings(*old(self)),
            *final(counters) == old(counters).counting(Event::Chunk),
            match next_entry(old(self).conn(entry.slot as int).response->Some_0, entry) {
                Some(next) => !last && final(self).wf() && gains_entry(
                    old(self).schedule.entries@,
                    final(self).schedule.entries@,
                    next,
                ),
                None => last && *final(self) == *old(self),
            },
    {
        counters.chunk();
        assert(self.live(entry.slot as int));
        let mut next: Option<Entry> = None;
        if let Some(conn) = &self.conns[entry.slot] {
            if let Some(response) = &conn.response {
                if let ResponseKind::Stream { params, t_first, .. } = &response.kind {
                    if entry.seq < params.chunks && entry.seq + 1 < params.chunks {
                        let seq: u32 = entry.seq + 1;
                        next = Some(
                            Entry {
                                t_sched: chunk_time(*t_first, params.interval_us, seq),
                                stream: entry.stream,
                                seq,
                                slot: entry.slot,
                            },
                        );
                    }
                }
            }
        }
        match next {
            Some(next) => {
                assert(old(self).is_planned(next));
                assert(old(self).holds_popped(next));
                self.schedule.push(next);
                proof {
                    assert(gains_entry(
                        old(self).schedule.entries@,
                        self.schedule.entries@,
                        next,
                    ));
                    lemma_entry_added(*old(self), *self, next);
                }
                false
            },
            None => true,
        }
    }

    /// Ends the current response of a connection. Returns whether the
    /// connection moves on to pipelined requests; otherwise it is to be
    /// closed.
    pub fn complete(&mut self, slot: usize, counters: &mut ShardCounters) -> (keep_alive: bool)
        requires
            old(self).wf_but(slot as int),
            old(self).response_id(slot as int) is Some,
            !old(self).is_scheduled(old(self).response_id(slot as int)->Some_0),
        ensures
            final(self).wf(),
            final(self).differs_at(*old(self), slot as int),
            final(self).same_settings(*old(self)),
            ({
                let before = old(self).conn(slot as int);
                let after = final(self).conn(slot as int);
                &&& after == (Connection { response: None, ..before })
                &&& keep_alive == before.response->Some_0.keep_alive
                &&& *final(counters) == (if before.response->Some_0.is_stream() {
                    old(counters).counting(Event::StreamFinished)
                } else {
                    *old(counters)
                })
            }),
    {
        let mut keep_alive = false;
        assert(self.live(slot as int));
        if let Some(conn) = &mut self.conns[slot] {
            if let Some(response) = conn.response.take() {
                if matches!(response.kind, ResponseKind::Stream { .. }) {
                    counters.stream_finished();
                }
                keep_alive = response.keep_alive;
            }
        }
        proof {
            assert(self.conns@ =~= old(self).conns@.update(slot as int, self.conns@[slot as int]));
            assert forall|s: int| #[trigger] self.live(s) == old(self).live(s) by {}
            assert forall|s: int| s != slot implies #[trigger] self.response_id(s) == old(
                self).response_id(s) by {}
            assert(self.response_id(slot as int) is None);
            assert forall|s: int| #[trigger] self.live(s) implies self.conn(s).wf() by {
                assert(old(self).live(s));
            }
            let id = old(self).response_id(slot as int)->Some_0;
            assert forall|i: int| 0 <= i < self.schedule.entries@.len() implies self.response_id(
                (#[trigger] self.schedule.entries@[i]).slot as int,
            ) == Some(self.schedule.entries@[i].stream) && self.is_planned(
                self.schedule.entries@[i],
            ) by {
                let e = old(self).schedule.entries@[i];
                assert(old(self).response_id(e.slot as int) == Some(e.stream));
                assert(old(self).is_planned(e));
                assert(e.stream != id);
            }
            assert forall|i: u64| #[trigger] self.is_scheduled(i) == old(self).is_scheduled(i) by {}
        }
        keep_alive
    }
}

/// In every state of a shard, an entry taken out to be fired belongs to the
/// response that its connection is producing: it never fires into a later
/// response that reuses the slot.
pub proof fn law_a_fired_entry_is_never_stale(shard: Shard, entry: Entry)
    requires
        shard.holds_popped(entry),
    ensures
        shard.live(entry.slot as int),
        shard.conn(entry.slot as int).response matches Some(response) && response.id == entry.stream,
{
}

/// Once a connection is closed nothing is scheduled in its slot any more.
pub proof fn law_a_vacant_slot_has_nothing_scheduled(shard: Shard, slot: int, i: int)
    requires
        shard.wf(),
        !shard.live(slot),
        0 <= i < shard.schedule.entries@.len(),
    ensures
        shard.schedule.entries@[i].slot != slot,
{
    let e = shard.schedule.entries@[i];
    assert(shard.response_id(e.slot as int) == Some(e.stream));
}

/// A connection without a response has nothing scheduled, so nothing of it
/// can fire while its request is inspected.
pub proof fn law_a_connection_without_a_response_has_nothing_scheduled(
    shard: Shard,
    slot: int,
    i: int,
)
    requires
        shard.wf(),
        shard.response_id(slot) is None,
        0 <= i < shard.schedule.entries@.len(),
    ensures
        shard.schedule.entries@[i].slot != slot,
{
    let e = shard.schedule.entries@[i];
    assert(shard.response_id(e.slot as int) == Some(e.stream));
}

/// `entry` is the earliest of `before`, its chunk was written, and `after`
/// is what is scheduled then.
pub open spec fn sends(before: Shard, response: Response, entry: Entry, after: Shard) -> bool {
    let rest = before.schedule.entries@.drop_last();
    &&& before.schedule.entries@.len() > 0
    &&& before.schedule.entries@.last() == entry
    &&& match next_entry(response, entry) {
        Some(next) => gains_entry(rest, after.schedule.entries@, next),
        None => after.schedule.entries@ == rest,
    }
}

/// What is scheduled for the response `id` is the same.
pub open spec fn same_plan(a: Shard, b: Shard, id: u64) -> bool {
    forall|e: Entry|
        e.stream == id ==> (#[trigger] a.schedule.entries@.contains(e)
            <==> b.schedule.entries@.contains(e))
}

/// Chunk `seq` of a stream as it is planned.
pub open spec fn planned_entry(response: Response, slot: usize, seq: u32) -> Entry {
    match response.kind {
        ResponseKind::Stream { params, t_first, .. } => Entry {
            t_sched: time::capped(t_first + params.interval_us * 1_000 * seq),
            stream: response.id,
            seq,
            slot,
        },
        ResponseKind::Completion { .. } => Entry { t_sched: 0, stream: response.id, seq, slot },
    }
}

/// A stream whose client stays emits its chunks in order, each once and at
/// its planned time, whatever else happens on the shard in between: the
/// `k`-th entry fired for it, in the shard `before[k]`, is that of chunk `k`,
/// and calls for a chunk with that number and time. After the last chunk
/// nothing is scheduled for the stream any more, so that only its tail is
/// left to be written; before it the next chunk is scheduled.
pub proof fn law_a_stream_emits_every_chunk_once_and_in_order(
    response: Response,
    slot: usize,
    before: Seq<Shard>,
    fired: Seq<Entry>,
    after: Seq<Shard>,
)
    requires
        response.is_stream(),
        fired.len() > 0,
        before.len() == fired.len(),
        after.len() == fired.len(),
        before[0].schedule.entries@.contains(planned_entry(response, slot, 0)),
        forall|k: int|
            0 <= k < fired.len() ==> (#[trigger] before[k]).wf() && fired[k].stream == response.id
                && sends(before[k], response, fired[k], after[k]),
        forall|k: int|
            0 <= k < fired.len() - 1 ==> same_plan(#[trigger] after[k], before[k + 1], response.id),
    ensures
        response.kind matches ResponseKind::Stream { params, t_first, .. } && {
            &&& fired.len() <= time::larger(params.chunks as int, 1)
            &&& forall|k: int|
                0 <= k < fired.len() ==> #[trigger] fired[k] == planned_entry(
                    response,
                    slot,
                    k as u32,
                )
            &&& forall|k: int|
                0 <= k < fired.len() && params.chunks > 0 ==> firing_of(response, #[trigger] fired[k])
                    == (Firing::Chunk {
                    marker: wire::Marker {
                        sid: params.sid,
                        seq: k as u32,
                        t_sched: time::capped(t_first + params.interval_us * 1_000 * k),
                        t_write: 0,
                    },
                    chunk_bytes: params.chunk_bytes,
                })
            &&& params.chunks == 0 ==> firing_of(response, fired[0]) == Firing::Tail
            &&& after.last().is_scheduled(response.id) <==> fired.len() < params.chunks
            &&& fired.len() < params.chunks ==> after.last().schedule.entries@.contains(
                planned_entry(response, slot, fired.len() as u32),
            )
        },
    decreases fired.len(),
{
    let n = fired.len() as int;
    let last = n - 1;
    let due = planned_entry(response, slot, last as u32);
    if n > 1 {
        assert forall|k: int| 0 <= k < n - 1 implies (#[trigger] before.drop_last()[k]).wf()
            && fired.drop_last()[k].stream == response.id && sends(
            before.drop_last()[k],
            response,
            fired.drop_last()[k],
            after.drop_last()[k],
        ) by {
            assert(before[k].wf());
        }
        assert forall|k: int| 0 <= k < n - 2 implies same_plan(
            #[trigger] after.drop_last()[k],
            before.drop_last()[k + 1],
            response.id,
        ) by {
            assert(same_plan(after[k], before[k + 1], response.id));
        }
        law_a_stream_emits_every_chunk_once_and_in_order(
            response,
            slot,
            before.drop_last(),
            fired.drop_last(),
            after.drop_last(),
        );
        assert(after.drop_last().last() == after[last - 1]);
        assert(same_plan(after[last - 1], before[last], response.id));
        assert(before[last].schedule.entries@.contains(fired[last])) by {
            assert(before[last].schedule.entries@[before[last].schedule.entries@.len() - 1]
                == fired[last]);
        }
        assert(after[last - 1].schedule.entries@.contains(fired[last]));
        assert(after[last - 1].is_scheduled(response.id)) by {
            let es = after[last - 1].schedule.entries@;
            let i = choose|i: int| 0 <= i < es.len() && es[i] == fired[last];
            assert(es[i].stream == response.id);
        }
        assert(after[last - 1].schedule.entries@.contains(due));
    }
    assert(before[last].schedule.entries@.contains(due));
    lemma_fired_is_planned(before[last], fired[last], due);
    assert forall|k: int| 0 <= k < n implies #[trigger] fired[k] == planned_entry(
        response,
        slot,
        k as u32,
    ) by {
        if k < n - 1 {
            assert(fired.drop_last()[k] == fired[k]);
        }
    }
    lemma_after_sending(before[last], response, fired[last], after[last]);
}

/// The entry taken out for a response is the one that is scheduled for it.
proof fn lemma_fired_is_planned(shard: Shard, entry: Entry, due: Entry)
    requires
        shard.wf(),
        shard.schedule.entries@.len() > 0,
        shard.schedule.entries@.last() == entry,
        shard.schedule.entries@.contains(due),
        due.stream == entry.stream,
    ensures
        entry == due,
{
    let es = shard.schedule.entries@;
    let i = choose|i: int| 0 <= i < es.len() && es[i] == due;
    if i < es.len() - 1 {
        assert(es[i].stream != es[es.len() - 1].stream);
    }
}

/// After a chunk the next one is scheduled, or nothing is.
proof fn lemma_after_sending(before: Shard, response: Response, entry: Entry, after: Shard)
    requires
        before.wf(),
        entry.stream == response.id,
        sends(before, response, entry, after),
    ensures
        match next_entry(response, entry) {
            Some(next) => after.schedule.entries@.contains(next) && (next.stream == response.id
                ==> after.is_scheduled(response.id)),
            None => !after.is_scheduled(response.id),
        },
{
    let es = before.schedule.entries@;
    let rest = es.drop_last();
    match next_entry(response, entry) {
        Some(next) => {
            let at = choose|at: int|
                0 <= at <= rest.len() && #[trigger] rest.insert(at, next)
                    == after.schedule.entries@;
            assert(after.schedule.entries@[at] == next);
        },
        None => {
            if after.is_scheduled(response.id) {
                let k = choose|k: int|
                    0 <= k < rest.len() && (#[trigger] rest[k]).stream == response.id;
                assert(es[k].stream != es[es.len() - 1].stream);
            }
        },
    }
}

/// A new connection waits for the head of a request: nothing was received on
/// it, no response is in progress, and it is neither closing nor at its end.
pub proof fn law_a_new_connection_waits_for_a_request(conn: Connection)
    requires
        conn.is_fresh(),
    ensures
        conn.rx@.len() == 0,
        conn.reader.state == State::Head,
        conn.reader.chunked_body@.len() == 0,
        conn.response is None,
        !conn.closing,
        !conn.eof,
{
}

} // verus!
