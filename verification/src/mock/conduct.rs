//! How the mock behaves, whatever a request asks for.

use crate::mock::emit;
use crate::mock::emit::EmitPolicy;
use crate::mock::inspect::{ChatRequest, Inspected, Inspector};
use crate::mock::request;
use crate::mock::request::{
    Head, Method, Progress, RequestError, RequestReader, Route, State, UnframedHead,
};
use crate::mock::response;
use crate::mock::response::Usage;
use crate::mock::schedule::Entry;
use crate::mock::server;
use crate::mock::server::{Exit, MockConfig};
use crate::mock::shard;
use crate::mock::shard::{
    AcceptNext, Connection, Dispatched, Firing, IoError, ReadEvent, ReadNext, ReadPass, Response,
    ResponseKind, ResponsePlan, Work,
};
use crate::mock::stats::{ErrorKind, Event, ShardCounters};
use crate::wire;
use crate::wire::{BenchParams, BodyFraming};
use vstd::prelude::*;

verus! {

/// An event that is counted raises its own counter by one, and no other
/// counter, read lag or point of reset changes.
pub proof fn law_an_event_counts_once(counters: ShardCounters, event: Event, other: Event)
    requires
        counters.of(event).value < u64::MAX,
        other != event,
    ensures
        counters.counting(event).of(event).value == counters.of(event).value + 1,
        counters.counting(event).of(event).baseline == counters.of(event).baseline,
        counters.counting(event).of(other) == counters.of(other),
        counters.counting(event).read_lag == counters.read_lag,
{
}

/// What counting an event does to any counter.
proof fn lemma_counted(counters: ShardCounters, event: Event, other: Event)
    ensures
        counters.counting(event).of(other) == if other == event {
            counters.of(other).plus(1)
        } else {
            counters.of(other)
        },
        counters.counting(event).read_lag == counters.read_lag,
{
}

/// The delay that a request asks for runs from the moment it was complete:
/// its first emission is due that many microseconds later, never before, and
/// at the end of time where there is no later one.
pub proof fn law_the_first_emission_waits_for_the_requested_delay(t0: u64, params: BenchParams)
    ensures
        ({
            let due = shard::first_emission(t0, params);
            &&& due >= t0
            &&& t0 + params.ttft_us * 1_000 <= u64::MAX ==> due == t0 + params.ttft_us * 1_000
            &&& t0 + params.ttft_us * 1_000 > u64::MAX ==> due == u64::MAX
        }),
{
}

/// Whatever is fired, its marker is that of the response's stream and carries
/// the time for which the entry stands in the schedule; the time of the write
/// is still to be filled in.
pub proof fn law_a_marker_carries_the_time_it_was_scheduled_for(
    response: Response,
    entry: Entry,
    params: BenchParams,
)
    requires
        response.kind matches ResponseKind::Stream { params: p, .. } ==> p == params,
        response.kind matches ResponseKind::Completion { params: p, .. } ==> p == params,
    ensures
        match shard::firing_of(response, entry) {
            Firing::Chunk { marker, chunk_bytes } => {
                &&& response.kind is Stream
                &&& entry.seq < params.chunks
                &&& marker.t_sched == entry.t_sched
                &&& marker.sid == params.sid
                &&& marker.seq == entry.seq
                &&& chunk_bytes == params.chunk_bytes
            },
            Firing::Completion { marker, resp_bytes } => {
                &&& response.kind is Completion
                &&& marker.t_sched == entry.t_sched
                &&& marker.sid == params.sid
                &&& marker.seq == 0
                &&& resp_bytes == params.resp_bytes
            },
            Firing::Tail => response.kind is Stream && entry.seq >= params.chunks,
            Firing::Stale => false,
        },
{
}

/// The marker of a whole response carries the time its emission was planned
/// for. When the one entry of a response to a request complete at `t0` that
/// does not stream is fired, it calls for a completion of the requested size,
/// and the time in its marker is `t0` plus the requested delay, up to the end
/// of time: the time at which the entry stands in the schedule.
pub proof fn law_a_whole_response_is_marked_with_its_planned_time(
    t0: u64,
    plan: ResponsePlan,
    chat: ChatRequest,
    keep_alive: bool,
    created_unix_s: u64,
    model: Seq<char>,
    response: Response,
    entry: Entry,
)
    requires
        plan.t_first == shard::first_emission(t0, plan.params),
        !chat.stream,
        shard::starts_as(response, plan, chat, keep_alive, created_unix_s, model),
        entry.t_sched == plan.t_first,
        entry.stream == plan.id,
        entry.seq == 0,
    ensures
        shard::firing_of(response, entry) matches Firing::Completion { marker, resp_bytes } && {
            let due = t0 + plan.params.ttft_us * 1_000;
            &&& marker.t_sched == if due <= u64::MAX {
                due
            } else {
                u64::MAX as int
            }
            &&& marker.t_sched == entry.t_sched
            &&& marker.sid == plan.params.sid
            &&& marker.seq == 0
            &&& resp_bytes == plan.params.resp_bytes
        },
        shard::next_entry(response, entry) is None,
{
}

/// A stream to a request complete at `t0` starts with its first chunk at `t0`
/// plus the requested delay, marked as number 0, or with its end where it has
/// no chunks.
pub proof fn law_a_stream_starts_at_its_planned_time(
    t0: u64,
    plan: ResponsePlan,
    chat: ChatRequest,
    keep_alive: bool,
    created_unix_s: u64,
    model: Seq<char>,
    response: Response,
    entry: Entry,
)
    requires
        plan.t_first == shard::first_emission(t0, plan.params),
        t0 + plan.params.ttft_us * 1_000 <= u64::MAX,
        chat.stream,
        shard::starts_as(response, plan, chat, keep_alive, created_unix_s, model),
        entry.t_sched == plan.t_first,
        entry.stream == plan.id,
        entry.seq == 0,
    ensures
        response.id == entry.stream,
        response.keep_alive == keep_alive,
        plan.params.chunks == 0 <==> shard::firing_of(response, entry) == Firing::Tail,
        plan.params.chunks > 0 ==> (shard::firing_of(response, entry) matches Firing::Chunk {
            marker,
            chunk_bytes,
        } && marker.t_sched == t0 + plan.params.ttft_us * 1_000 && marker.seq == 0 && marker.sid
            == plan.params.sid && chunk_bytes == plan.params.chunk_bytes),
{
}

/// The chunk after one is its successor in number, one interval later on the
/// plan of the stream, in the same slot and for the same response; the last
/// chunk has none.
pub proof fn law_the_next_chunk_follows_one_interval_later(
    response: Response,
    entry: Entry,
    params: BenchParams,
    t_first: u64,
)
    requires
        response.kind matches ResponseKind::Stream { params: p, t_first: t, .. } && p == params && t
            == t_first,
        t_first + params.interval_us * 1_000 * (entry.seq + 1) <= u64::MAX,
        entry.t_sched == t_first + params.interval_us * 1_000 * entry.seq,
    ensures
        match shard::next_entry(response, entry) {
            Some(next) => {
                &&& entry.seq + 1 < params.chunks
                &&& next.seq == entry.seq + 1
                &&& next.t_sched == entry.t_sched + params.interval_us * 1_000
                &&& next.stream == entry.stream
                &&& next.slot == entry.slot
            },
            None => entry.seq + 1 >= params.chunks,
        },
{
    let step = params.interval_us * 1_000;
    assert(step * (entry.seq + 1) == step * entry.seq + step) by (nonlinear_arith);
}

/// A response streams exactly when the request asked it to, answers the
/// stream that the parameters name and reports usage at the end of a stream
/// exactly when that was requested: a token for every four bytes or part of
/// four, of the request body and of what was produced.
pub proof fn law_a_response_is_what_was_asked_for(
    response: Response,
    plan: ResponsePlan,
    chat: ChatRequest,
    keep_alive: bool,
    created_unix_s: u64,
    model: Seq<char>,
)
    requires
        shard::starts_as(response, plan, chat, keep_alive, created_unix_s, model),
    ensures
        response.is_stream() <==> chat.stream,
        response.keep_alive == keep_alive,
        response.id == plan.id,
        response.kind matches ResponseKind::Stream { params, t_first, tail_usage, .. } ==> {
            &&& params == plan.params
            &&& t_first == plan.t_first
            &&& tail_usage is Some <==> chat.include_usage
            &&& tail_usage matches Some(usage) ==> {
                &&& chat.body_len <= 4 * usage.prompt_tokens < chat.body_len + 4
                &&& usage.completion_tokens == plan.params.chunks
            }
        },
        response.kind matches ResponseKind::Completion { params, usage, .. } ==> {
            &&& params == plan.params
            &&& chat.body_len <= 4 * usage.prompt_tokens < chat.body_len + 4
            &&& plan.params.resp_bytes <= 4 * usage.completion_tokens < plan.params.resp_bytes + 4
        },
{
}

/// A connection that closes counts as closed once. A response still in
/// progress on it counts as aborted, whatever the reason for the close, and a
/// stream among these as ended, so that no stream stays active; without one
/// the reason counts, if there is one. Nothing else is counted.
#[verifier::rlimit(40)]
pub proof fn law_a_close_settles_the_response_in_progress(
    counters: ShardCounters,
    conn: Connection,
    error: Option<ErrorKind>,
    event: Event,
)
    requires
        forall|e: Event| (#[trigger] counters.of(e)).value < u64::MAX - 1,
    ensures
        ({
            let after = shard::closed_counts(counters, conn, error);
            let more = after.of(event).value - counters.of(event).value;
            let streaming = conn.response matches Some(response) && response.kind is Stream;
            &&& more == if event == Event::Closed {
                1int
            } else if event == Event::StreamFinished && streaming {
                1
            } else if event == Event::Error(ErrorKind::Aborted) && conn.response is Some {
                1
            } else if conn.response is None && error is Some && event == Event::Error(
                error->Some_0,
            ) {
                1
            } else {
                0
            }
            &&& after.read_lag == counters.read_lag
        }),
{
    assert(counters.of(event).value < u64::MAX - 1);
    match conn.response {
        Some(response) => {
            let ended = if response.kind is Stream {
                counters.counting(Event::StreamFinished)
            } else {
                counters
            };
            let aborted = ended.counting(Event::Error(ErrorKind::Aborted));
            lemma_counted(counters, Event::StreamFinished, event);
            lemma_counted(ended, Event::Error(ErrorKind::Aborted), event);
            lemma_counted(aborted, Event::Closed, event);
        },
        None => {
            let noted = match error {
                Some(kind) => counters.counting(Event::Error(kind)),
                None => counters,
            };
            if error is Some {
                lemma_counted(counters, Event::Error(error->Some_0), event);
            }
            lemma_counted(noted, Event::Closed, event);
        },
    }
}

/// A peer that goes away is no error: only malformed data counts, as a TLS
/// failure, and every other failure that does not mean that the peer left.
pub proof fn law_a_peer_that_leaves_is_no_error(err: IoError)
    ensures
        shard::failure_counted_as(err) is None <==> (err == IoError::ConnectionReset || err
            == IoError::ConnectionAborted || err == IoError::BrokenPipe || err
            == IoError::UnexpectedEof),
        shard::failure_counted_as(err) == Some(ErrorKind::Tls) <==> err == IoError::InvalidData,
        shard::failure_counted_as(err) matches Some(kind) ==> kind == ErrorKind::Tls || kind
            == ErrorKind::Io,
        shard::peer_left(err) <==> shard::failure_counted_as(err) is None,
{
}

/// A failed `accept` stops the round only when the backlog is empty or when
/// trying again at once would fail again; a connection that died in the
/// backlog does not.
pub proof fn law_a_dead_connection_does_not_stop_accepting(err: IoError)
    ensures
        shard::after_accept_error(err) == AcceptNext::Done <==> err == IoError::WouldBlock,
        shard::after_accept_error(err) == AcceptNext::Again <==> (err == IoError::Interrupted
            || err == IoError::ConnectionAborted || err == IoError::ConnectionReset),
        shard::after_accept_error(err) == AcceptNext::Retry <==> err == IoError::InvalidData || err
            == IoError::BrokenPipe || err == IoError::UnexpectedEof || err == IoError::TimedOut
            || err == IoError::Other,
{
}

/// Every request that is not for a bench endpoint counts as one request, and
/// no request for a bench endpoint does. A path that is not served counts as
/// not found, a served one with the wrong method as such, and no other error
/// is counted.
pub proof fn law_every_api_request_is_counted(counters: ShardCounters, head: Head, event: Event)
    requires
        counters.of(event).value < u64::MAX,
    ensures
        ({
            let after = shard::routed_counts(counters, head);
            let bench = head.route == Route::Stats || head.route == Route::Reset;
            let served = (head.route == Route::ChatCompletions && head.method == Method::Post) || (
            head.route == Route::Models && head.method == Method::Get) || (head.route
                == Route::Stats && head.method == Method::Get) || (head.route == Route::Reset
                && head.method == Method::Post);
            let more = after.of(event).value - counters.of(event).value;
            &&& event == Event::Request ==> more == if bench {
                0int
            } else {
                1
            }
            &&& event == Event::Error(ErrorKind::NotFound) ==> more == if head.route
                == Route::Unknown {
                1int
            } else {
                0
            }
            &&& event == Event::Error(ErrorKind::MethodNotAllowed) ==> more == if !served
                && head.route != Route::Unknown {
                1int
            } else {
                0
            }
            &&& event != Event::Request && event != Event::Error(ErrorKind::NotFound) && event
                != Event::Error(ErrorKind::MethodNotAllowed) ==> more == 0
            &&& after.read_lag == counters.read_lag
        }),
{
}

/// A request is inspected, answered with the counters or made to restart
/// them exactly when it is the one for that; any other is answered at once,
/// with success only for the list of models.
pub proof fn law_every_request_gets_the_answer_of_its_route(
    head: Head,
    model: Seq<char>,
    r: Dispatched,
)
    requires
        shard::routes_to(head, model, r),
    ensures
        r is Inspect <==> head.route == Route::ChatCompletions && head.method == Method::Post,
        r is Stats <==> head.route == Route::Stats && head.method == Method::Get,
        r is Reset <==> head.route == Route::Reset && head.method == Method::Post,
        r matches Dispatched::Reset(reply) ==> reply.head.status == 204 && reply.body@.len() == 0,
        r matches Dispatched::Reply(reply) ==> {
            &&& reply.head.status == 200 <==> head.route == Route::Models && head.method
                == Method::Get
            &&& reply.head.status == 404 <==> head.route == Route::Unknown
            &&& reply.head.status != 200 && reply.head.status != 404 ==> reply.head.status == 405
            &&& reply.head.framing == BodyFraming::Length(reply.body@.len() as u64)
        },
{
}

/// A request that cannot be read is refused by what is wrong with it: a head
/// or a body over the limit and a version that is not served have statuses of
/// their own, anything else is a bad request. The two limits are counted
/// apart.
pub proof fn law_an_unreadable_request_is_refused_by_its_fault(err: RequestError)
    ensures
        shard::rejection(err).0 == 431 <==> err is HeadTooLarge,
        shard::rejection(err).0 == 413 <==> err is BodyTooLarge,
        shard::rejection(err).0 == 505 <==> err is Version,
        shard::rejection(err).0 == 400 <==> err is Head || err is Framing,
        shard::rejection(err).2 == ErrorKind::HeadTooLarge <==> err is HeadTooLarge,
        shard::rejection(err).2 == ErrorKind::BodyTooLarge <==> err is BodyTooLarge,
        shard::rejection(err).2 == ErrorKind::BadRequest <==> !(err is HeadTooLarge)
            && !(err is BodyTooLarge),
{
}

/// Reading goes on only while budget is left and no emission is due; a client
/// that keeps sending behind a response is cut off past the limit; an
/// operation that would block or was interrupted is no failure.
pub proof fn law_reading_yields_to_emissions(
    conn: Connection,
    pass: ReadPass,
    event: ReadEvent,
    due: bool,
)
    requires
        !pass.spent(),
        65_536 + 67_108_864 <= usize::MAX,
    ensures
        ({
            let next = shard::read_outcome(conn, pass, event, due);
            &&& event is Batch && due ==> !(next is Again)
            &&& event matches ReadEvent::Batch(n) ==> {
                let over = conn.response is Some && conn.rx@.len() > 65_536 + 67_108_864;
                &&& next is Overflow <==> over
                &&& next is Again <==> !over && !due && pass.receives > 1 && pass.bytes > n
            }
            &&& next matches ReadNext::Fail(err) ==> event == ReadEvent::Failed(err) && err
                != IoError::WouldBlock && err != IoError::Interrupted
            &&& event matches ReadEvent::Failed(err) ==> (err != IoError::WouldBlock && err
                != IoError::Interrupted ==> next == ReadNext::Fail(err))
            &&& event == ReadEvent::Eof ==> next is Process
        }),
{
}

/// A client that stopped sending is closed; that is an error exactly when it
/// stopped in the middle of a request, with no response under way and no
/// close begun. A client that may still send is not closed.
pub proof fn law_a_client_that_stops_mid_request_is_an_error(conn: Connection)
    ensures
        shard::settled(conn) is Close <==> conn.eof,
        !conn.eof ==> shard::settled(conn) is Sync,
        shard::settled(conn) matches Work::Close(error) ==> {
            let between = conn.reader.state is Head && conn.rx@.len() == 0;
            &&& error is Some <==> !conn.closing && conn.response is None && !between
            &&& error matches Some(kind) ==> kind == ErrorKind::BadRequest
        },
{
}

/// The mock serves parameters up to 1 MiB a chunk and 64 MiB a response, and
/// names the size that is beyond that.
pub proof fn law_oversized_parameters_are_refused(params: BenchParams)
    ensures
        server::exceeded(params) is None <==> params.chunk_bytes <= 1_048_576 && params.resp_bytes
            <= 67_108_864,
        server::exceeded(params) matches Some(server::ParamsError::ChunkBytes(n)) ==> n
            == params.chunk_bytes && n > 1_048_576,
        server::exceeded(params) matches Some(server::ParamsError::RespBytes(n)) ==> n
            == params.resp_bytes && n > 67_108_864,
{
}

/// A configuration is served exactly when it has a shard, several shards only
/// where they can share a port, a CPU to pin to where it pins at all, and
/// default parameters that are valid and within the limits.
pub proof fn law_a_configuration_is_served_when_it_can_be(
    config: MockConfig,
    reuse_port: bool,
    fault: Option<String>,
)
    ensures
        server::refused(config, reuse_port, fault) is None <==> config.shards >= 1 && (
        config.shards == 1 || reuse_port) && (config.cpus is None || config.cpus->0@.len() > 0)
            && fault is None && config.defaults.chunk_bytes <= 1_048_576
            && config.defaults.resp_bytes <= 67_108_864,
{
}

/// The failure reported is the first one: the shard named did not stop as
/// asked, every shard joined before it did, and without one all did.
pub proof fn law_the_first_failure_is_the_one_reported(exits: Seq<Exit>)
    ensures
        match server::first_failure(exits) {
            Some(i) => 0 <= i < exits.len() && exits[i] != Exit::Stopped && forall|j: int|
                0 <= j < i ==> #[trigger] exits[j] == Exit::Stopped,
            None => forall|j: int| 0 <= j < exits.len() ==> #[trigger] exits[j] == Exit::Stopped,
        },
    decreases exits.len(),
{
    if exits.len() > 0 {
        let rest = exits.drop_last();
        law_the_first_failure_is_the_one_reported(rest);
        match server::first_failure(rest) {
            Some(i) => {
                assert(rest[i] == exits[i]);
                assert forall|j: int| 0 <= j < i implies #[trigger] exits[j] == Exit::Stopped by {
                    assert(rest[j] == exits[j]);
                }
            },
            None => {
                assert forall|j: int| 0 <= j < exits.len() - 1 implies #[trigger] exits[j]
                    == Exit::Stopped by {
                    assert(rest[j] == exits[j]);
                }
            },
        }
    }
}

/// The commit window never exceeds the spin window. Full spin commits to all
/// of it; the fixed policy to what is configured, as far as it goes, so a
/// longer commit window never shortens what is committed to.
pub proof fn law_the_commit_window_stays_within_the_spin_window(
    spin_ns: u64,
    commit_ns: u64,
    longer_ns: u64,
)
    requires
        commit_ns <= longer_ns,
    ensures
        emit::committed(EmitPolicy::FullSpin, spin_ns, commit_ns) == spin_ns,
        emit::committed(EmitPolicy::Fixed, spin_ns, commit_ns) <= spin_ns,
        commit_ns <= spin_ns ==> emit::committed(EmitPolicy::Fixed, spin_ns, commit_ns)
            == commit_ns,
        commit_ns >= spin_ns ==> emit::committed(EmitPolicy::Fixed, spin_ns, commit_ns) == spin_ns,
        emit::committed(EmitPolicy::Fixed, spin_ns, commit_ns) <= emit::committed(
            EmitPolicy::Fixed,
            spin_ns,
            longer_ns,
        ),
{
}

/// A head is accepted exactly when it is complete, of version 1.1 and no
/// longer than 64 KiB; more input is asked for only while no more than that
/// is buffered.
pub proof fn law_a_head_is_accepted_within_the_limit(
    parsed: Result<Option<(nat, Seq<u8>, Seq<u8>, u8, Seq<(Seq<u8>, Seq<u8>)>)>, (bool, Seq<char>)>,
    buffered: nat,
    r: Result<Option<(UnframedHead, usize)>, RequestError>,
)
    requires
        request::head_outcome(parsed, buffered, r),
    ensures
        (r matches Ok(Some(_))) <==> (parsed matches Ok(Some((len, _, _, version, _))) && len
            <= 65_536 && version == 1),
        (r matches Ok(None)) <==> ((parsed matches Ok(None)) && buffered <= 65_536),
        r matches Err(RequestError::Version(v)) ==> v != 1,
        (parsed matches Ok(Some((len, _, _, _, _))) && len > 65_536) ==> r
            matches Err(RequestError::HeadTooLarge),
{
}

/// A body of more than 64 MiB is refused as soon as its length is known, and
/// a client that waits is told to go on only for a body it has yet to send.
/// What is read of a request is behind its head, of which nothing is left.
pub proof fn law_a_body_is_read_within_the_limit(
    before: RequestReader,
    rx: Seq<u8>,
    n: u64,
    after: RequestReader,
    rx_after: Seq<u8>,
    r: Result<Progress, RequestError>,
    unframed: UnframedHead,
    len: usize,
)
    requires
        before.state == (State::Framing { unframed, len }),
        len <= rx.len(),
        request::framed_step(before, rx, Ok(BodyFraming::Length(n)), after, rx_after, r),
    ensures
        rx == rx.take(len as int) + rx_after,
        (r matches Err(RequestError::BodyTooLarge)) <==> n > 67_108_864,
        r == Ok::<Progress, RequestError>(Progress::Continue) <==> n <= 67_108_864 && n > 0
            && unframed.expect_continue,
        (r matches Ok(Progress::Request(_))) <==> n <= 67_108_864 && (n == 0
            || !unframed.expect_continue) && rx_after.len() >= n,
        r matches Ok(Progress::Request(head)) ==> head.method == unframed.method && head.route
            == unframed.route && head.keep_alive == unframed.keep_alive,
{
    assert(rx =~= rx.take(len as int) + rx_after);
}

/// Usage is only ever reported for a stream, and only where it was asked for;
/// a request streams only if it says so.
pub proof fn law_only_a_stream_reports_usage(inspector: Inspector, body_len: nat)
    ensures
        ({
            let found = inspector.found(body_len);
            &&& found.include_usage ==> found.stream
            &&& found.stream <==> inspector.stream == Some(true)
            &&& found.include_usage <==> inspector.stream == Some(true) && inspector.include_usage
                == Some(true)
            &&& found.directive == inspector.directive
        }),
{
}

/// The tail of a stream ends with the final event and the last chunk, whether
/// usage is reported or not, and begins with the event that stops the
/// content; the usage event stands between them, and only where it was asked
/// for.
pub proof fn law_a_stream_ends_with_its_final_event(common: Seq<u8>, usage: Usage)
    ensures
        ({
            let plain = response::stream_tail(common, None);
            let told = response::stream_tail(common, Some(usage));
            let stop = wire::chunk_frame(response::stop_event(common));
            let end = wire::chunk_frame(crate::text::ascii("data: [DONE]\n\n"@))
                + wire::last_chunk();
            let between = wire::chunk_frame(response::usage_event(common, usage));
            &&& plain == stop + end
            &&& told == stop + between + end
        }),
{
    let stop = wire::chunk_frame(response::stop_event(common));
    let done = wire::chunk_frame(crate::text::ascii("data: [DONE]\n\n"@));
    assert(response::stream_tail(common, None) =~= stop + (done + wire::last_chunk()));
    assert(response::stream_tail(common, Some(usage)) =~= stop + wire::chunk_frame(
        response::usage_event(common, usage),
    ) + (done + wire::last_chunk()));
}

} // verus!
