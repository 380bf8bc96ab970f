//! What the records of a shard amount to, and what every event adds to them.

use crate::histogram;
use crate::loadgen::censor;
use crate::loadgen::censor::Metric;
use crate::loadgen::errors::ErrorKind;
use crate::loadgen::flight::{Connection, Mode, Request};
use crate::loadgen::response::{Completion, Framing, ResponseError, ResponseParser, State};
use crate::loadgen::schedule::Arrival;
use crate::loadgen::shard;
use crate::loadgen::shard::{Due, Net, Record, Shard};
use crate::loadgen::tracker::RampTracker;
use crate::wire::Marker;
use vstd::multiset::Multiset;
use vstd::prelude::*;

verus! {

/// The span of `metric` in a record, if it is one: when it was taken, its
/// start and its end.
pub open spec fn span_in(record: Record, metric: Metric) -> Seq<(u64, u64, u64)> {
    match record {
        Record::Span { at_ns, metric: m, from_ns, to_ns } if m == metric => seq![
            (at_ns, from_ns, to_ns),
        ],
        _ => Seq::empty(),
    }
}

/// The spans of `metric` among the records.
pub open spec fn spans(records: Seq<Record>, metric: Metric) -> Seq<(u64, u64, u64)>
    decreases records.len(),
{
    if records.len() == 0 {
        Seq::empty()
    } else {
        spans(records.drop_last(), metric) + span_in(records.last(), metric)
    }
}

/// When requests succeeded, according to the records.
pub open spec fn successes(records: Seq<Record>) -> Seq<u64>
    decreases records.len(),
{
    if records.len() == 0 {
        Seq::empty()
    } else {
        match records.last() {
            Record::Request { done_ns } => successes(records.drop_last()).push(done_ns),
            _ => successes(records.drop_last()),
        }
    }
}

/// When and how something failed, according to the records.
pub open spec fn failures(records: Seq<Record>) -> Seq<(u64, ErrorKind)>
    decreases records.len(),
{
    if records.len() == 0 {
        Seq::empty()
    } else {
        match records.last() {
            Record::Error { failed_ns, kind } => failures(records.drop_last()).push(
                (failed_ns, kind),
            ),
            _ => failures(records.drop_last()),
        }
    }
}

/// When chunks arrived, according to the records.
pub open spec fn chunk_times(records: Seq<Record>) -> Seq<u64>
    decreases records.len(),
{
    if records.len() == 0 {
        Seq::empty()
    } else {
        match records.last() {
            Record::Chunk { received_ns } => chunk_times(records.drop_last()).push(received_ns),
            _ => chunk_times(records.drop_last()),
        }
    }
}

/// One more record adds what it says.
proof fn lemma_push(records: Seq<Record>, record: Record)
    ensures
        forall|m: Metric| #[trigger]
            spans(records.push(record), m) == spans(records, m) + span_in(record, m),
        successes(records.push(record)) == match record {
            Record::Request { done_ns } => successes(records).push(done_ns),
            _ => successes(records),
        },
        failures(records.push(record)) == match record {
            Record::Error { failed_ns, kind } => failures(records).push((failed_ns, kind)),
            _ => failures(records),
        },
        chunk_times(records.push(record)) == match record {
            Record::Chunk { received_ns } => chunk_times(records).push(received_ns),
            _ => chunk_times(records),
        },
{
    assert(records.push(record).drop_last() =~= records);
}

/// Two runs of records amount to what both do.
pub(crate) proof fn lemma_add(a: Seq<Record>, b: Seq<Record>)
    ensures
        forall|m: Metric| #[trigger] spans(a + b, m) == spans(a, m) + spans(b, m),
        successes(a + b) == successes(a) + successes(b),
        failures(a + b) == failures(a) + failures(b),
        chunk_times(a + b) == chunk_times(a) + chunk_times(b),
    decreases b.len(),
{
    if b.len() == 0 {
        assert(a + b =~= a);
        assert forall|m: Metric| #[trigger] spans(a + b, m) == spans(a, m) + spans(b, m) by {
            assert(spans(a, m) + spans(b, m) =~= spans(a, m));
        }
        assert(successes(a) + successes(b) =~= successes(a));
        assert(failures(a) + failures(b) =~= failures(a));
        assert(chunk_times(a) + chunk_times(b) =~= chunk_times(a));
    } else {
        let rest = b.drop_last();
        lemma_add(a, rest);
        assert((a + b).drop_last() =~= a + rest);
        assert((a + b).last() == b.last());
        assert forall|m: Metric| #[trigger] spans(a + b, m) == spans(a, m) + spans(b, m) by {
            assert(spans(a + rest, m) == spans(a, m) + spans(rest, m));
            assert(spans(a + b, m) =~= spans(a, m) + spans(b, m));
        }
        assert(successes(a + b) =~= successes(a) + successes(b));
        assert(failures(a + b) =~= failures(a) + failures(b));
        assert(chunk_times(a + b) =~= chunk_times(a) + chunk_times(b));
    }
}

/// What the records of one marker amount to.
proof fn lemma_one_marker(mode: Mode, request: Request, marker: Marker, t_recv: u64)
    ensures
        ({
            let told = shard::marker_records(mode, request, marker, t_recv);
            let first = mode is Stream && request.markers == 0;
            let none = Seq::<(u64, u64, u64)>::empty();
            &&& spans(told, Metric::ChunkWire) == seq![(t_recv, marker.t_write, t_recv)]
            &&& spans(told, Metric::MockWriteLag) == seq![(t_recv, marker.t_sched, marker.t_write)]
            &&& spans(told, Metric::ChunkLatency) == if mode is Stream {
                seq![(t_recv, marker.t_sched, t_recv)]
            } else {
                none
            }
            &&& spans(told, Metric::Ttft) == if first {
                seq![(t_recv, request.sched_ns, t_recv)]
            } else {
                none
            }
            &&& spans(told, Metric::TtftReused) == if first && !request.fresh {
                seq![(t_recv, request.sched_ns, t_recv)]
            } else {
                none
            }
            &&& spans(told, Metric::EmitLag) == none
            &&& spans(told, Metric::RequestLatency) == none
            &&& successes(told).len() == 0
            &&& failures(told).len() == 0
            &&& chunk_times(told) == if mode is Stream {
                seq![t_recv]
            } else {
                Seq::empty()
            }
        }),
{
    let told = shard::marker_records(mode, request, marker, t_recv);
    let n = told.len();
    let t0 = Seq::<Record>::empty();
    let t1 = t0.push(told[0]);
    let t2 = t1.push(told[1]);
    lemma_push(t0, told[0]);
    lemma_push(t1, told[1]);
    if n == 2 {
        assert(told =~= t2);
    } else {
        let t3 = t2.push(told[2]);
        let t4 = t3.push(told[3]);
        lemma_push(t2, told[2]);
        lemma_push(t3, told[3]);
        if n == 4 {
            assert(told =~= t4);
        } else {
            let t5 = t4.push(told[4]);
            lemma_push(t4, told[4]);
            if n == 5 {
                assert(told =~= t5);
            } else {
                lemma_push(t5, told[5]);
                assert(told =~= t5.push(told[5]));
            }
        }
    }
    assert(spans(told, Metric::ChunkWire) =~= seq![(t_recv, marker.t_write, t_recv)]);
    assert(spans(told, Metric::MockWriteLag) =~= seq![(t_recv, marker.t_sched, marker.t_write)]);
    assert(spans(told, Metric::ChunkLatency) =~= if mode is Stream {
        seq![(t_recv, marker.t_sched, t_recv)]
    } else {
        Seq::empty()
    });
    assert(spans(told, Metric::Ttft) =~= if mode is Stream && request.markers == 0 {
        seq![(t_recv, request.sched_ns, t_recv)]
    } else {
        Seq::empty()
    });
    assert(spans(told, Metric::TtftReused) =~= if mode is Stream && request.markers == 0
        && !request.fresh {
        seq![(t_recv, request.sched_ns, t_recv)]
    } else {
        Seq::empty()
    });
    assert(spans(told, Metric::EmitLag) =~= Seq::empty());
    assert(spans(told, Metric::RequestLatency) =~= Seq::empty());
    assert(chunk_times(told) =~= if mode is Stream {
        seq![t_recv]
    } else {
        Seq::empty()
    });
}

/// A request that receives markers keeps its schedule, its identity and its
/// connection: only the count of its markers grows, by exactly one for each,
/// and the planned time of the last one is kept.
pub proof fn law_markers_change_only_what_they_say(request: Request, markers: Seq<Marker>)
    requires
        request.markers + markers.len() <= u32::MAX,
    ensures
        ({
            let after = shard::seen(request, markers);
            &&& after.sched_ns == request.sched_ns
            &&& after.sent_ns == request.sent_ns
            &&& after.sid == request.sid
            &&& after.chunks == request.chunks
            &&& after.step == request.step
            &&& after.retried == request.retried
            &&& after.fresh == request.fresh
            &&& after.markers == request.markers + markers.len()
            &&& after.last_marker_sched == if markers.len() > 0 {
                markers[markers.len() - 1].t_sched
            } else {
                request.last_marker_sched
            }
        }),
    decreases markers.len(),
{
    if markers.len() > 0 {
        law_markers_change_only_what_they_say(request, markers.drop_last());
    }
}

/// The time to the first chunk runs from the scheduled start of the request
/// to the receipt of its first marker, whatever times the marker carries: the
/// first marker of a stream leaves exactly one such span, under `Ttft` and,
/// on a pooled connection, under `TtftReused`, and no other marker leaves one.
/// Whole responses have no first chunk.
pub proof fn law_the_first_chunk_is_timed_from_the_scheduled_start(
    mode: Mode,
    request: Request,
    markers: Seq<Marker>,
    t_recv: u64,
)
    requires
        request.markers + markers.len() <= u32::MAX,
    ensures
        ({
            let told = shard::markers_records(mode, request, markers, t_recv);
            let first = mode is Stream && request.markers == 0 && markers.len() > 0;
            &&& spans(told, Metric::Ttft) == if first {
                seq![(t_recv, request.sched_ns, t_recv)]
            } else {
                Seq::empty()
            }
            &&& spans(told, Metric::TtftReused) == if first && !request.fresh {
                seq![(t_recv, request.sched_ns, t_recv)]
            } else {
                Seq::empty()
            }
        }),
    decreases markers.len(),
{
    if markers.len() > 0 {
        let rest = markers.drop_last();
        let before = shard::seen(request, rest);
        let last = shard::marker_records(mode, before, markers.last(), t_recv);
        law_the_first_chunk_is_timed_from_the_scheduled_start(mode, request, rest, t_recv);
        law_markers_change_only_what_they_say(request, rest);
        lemma_one_marker(mode, before, markers.last(), t_recv);
        lemma_add(shard::markers_records(mode, request, rest, t_recv), last);
        let told = shard::markers_records(mode, request, markers, t_recv);
        let first = mode is Stream && request.markers == 0;
        assert(spans(told, Metric::Ttft) =~= if first {
            seq![(t_recv, request.sched_ns, t_recv)]
        } else {
            Seq::empty()
        });
        assert(spans(told, Metric::TtftReused) =~= if first && !request.fresh {
            seq![(t_recv, request.sched_ns, t_recv)]
        } else {
            Seq::empty()
        });
    }
}

/// Two runs of markers that differ only in the times they carry leave the
/// same times to the first chunk: the mock's clock has no say in them.
pub proof fn law_the_first_chunk_ignores_the_times_of_the_marker(
    mode: Mode,
    request: Request,
    a: Seq<Marker>,
    b: Seq<Marker>,
    t_recv: u64,
)
    requires
        a.len() == b.len(),
        request.markers + a.len() <= u32::MAX,
    ensures
        spans(shard::markers_records(mode, request, a, t_recv), Metric::Ttft) == spans(
            shard::markers_records(mode, request, b, t_recv),
            Metric::Ttft,
        ),
        spans(shard::markers_records(mode, request, a, t_recv), Metric::TtftReused) == spans(
            shard::markers_records(mode, request, b, t_recv),
            Metric::TtftReused,
        ),
{
    law_the_first_chunk_is_timed_from_the_scheduled_start(mode, request, a, t_recv);
    law_the_first_chunk_is_timed_from_the_scheduled_start(mode, request, b, t_recv);
}

/// Every marker leaves one span from its planned time to its write by the
/// mock and one from that write to its receipt; in a stream also one from its
/// planned time to its receipt, and one chunk. Markers leave nothing else:
/// they complete no request, fail none and say nothing of sends.
pub proof fn law_every_marker_is_timed_by_its_own_times(
    mode: Mode,
    request: Request,
    markers: Seq<Marker>,
    t_recv: u64,
)
    requires
        request.markers + markers.len() <= u32::MAX,
    ensures
        ({
            let told = shard::markers_records(mode, request, markers, t_recv);
            let n = markers.len();
            let chunks = if mode is Stream {
                n
            } else {
                0
            };
            &&& spans(told, Metric::MockWriteLag) == Seq::new(
                n,
                |i: int| (t_recv, markers[i].t_sched, markers[i].t_write),
            )
            &&& spans(told, Metric::ChunkWire) == Seq::new(
                n,
                |i: int| (t_recv, markers[i].t_write, t_recv),
            )
            &&& spans(told, Metric::ChunkLatency) == Seq::new(
                chunks,
                |i: int| (t_recv, markers[i].t_sched, t_recv),
            )
            &&& chunk_times(told) == Seq::new(chunks, |i: int| t_recv)
            &&& spans(told, Metric::EmitLag).len() == 0
            &&& spans(told, Metric::RequestLatency).len() == 0
            &&& successes(told).len() == 0
            &&& failures(told).len() == 0
        }),
    decreases markers.len(),
{
    let told = shard::markers_records(mode, request, markers, t_recv);
    let n = markers.len();
    if n > 0 {
        let rest = markers.drop_last();
        let before = shard::seen(request, rest);
        law_every_marker_is_timed_by_its_own_times(mode, request, rest, t_recv);
        lemma_one_marker(mode, before, markers.last(), t_recv);
        lemma_add(
            shard::markers_records(mode, request, rest, t_recv),
            shard::marker_records(mode, before, markers.last(), t_recv),
        );
    }
    let chunks = if mode is Stream {
        n
    } else {
        0
    };
    assert(spans(told, Metric::MockWriteLag) =~= Seq::new(
        n,
        |i: int| (t_recv, markers[i].t_sched, markers[i].t_write),
    ));
    assert(spans(told, Metric::ChunkWire) =~= Seq::new(
        n,
        |i: int| (t_recv, markers[i].t_write, t_recv),
    ));
    assert(spans(told, Metric::ChunkLatency) =~= Seq::new(
        chunks,
        |i: int| (t_recv, markers[i].t_sched, t_recv),
    ));
    assert(chunk_times(told) =~= Seq::new(chunks, |i: int| t_recv));
}

/// The spans of every metric but `but` are the same.
pub open spec fn same_spans_but(a: Seq<Record>, b: Seq<Record>, but: Metric) -> bool {
    forall|m: Metric| m != but ==> #[trigger] spans(a, m) == spans(b, m)
}

/// A complete response is a success if and only if its status is 200. Then
/// one more request has succeeded, at the time of its end, and a whole
/// response leaves one request latency, from the scheduled start to that
/// time. Any other status leaves one more error, none of those, and the
/// error is of the kind of the status: 429 and 503 have kinds of their own,
/// the others of the 400s and 500s share one each, and so does the rest.
/// Either way the request is no longer open and nothing else is told.
pub proof fn law_only_a_200_is_a_success(
    net: Net,
    slot: usize,
    mode: Mode,
    status: u16,
    t_recv: u64,
    reusable: bool,
)
    requires
        net.live(slot as int),
        net.conn(slot as int).request is Some,
        net.pending is None,
    ensures
        ({
            let after = net.completed(slot, mode, status, t_recv, reusable);
            let request = net.conn(slot as int).request->Some_0;
            let ok = status == 200;
            &&& after.requests == net.requests + if ok {
                1int
            } else {
                0
            }
            &&& after.errors == net.errors + if ok {
                0int
            } else {
                1
            }
            &&& successes(after.records) == if ok {
                successes(net.records).push(t_recv)
            } else {
                successes(net.records)
            }
            &&& spans(after.records, Metric::RequestLatency) == if ok && mode is Whole {
                spans(net.records, Metric::RequestLatency).push(
                    (t_recv, request.sched_ns, t_recv),
                )
            } else {
                spans(net.records, Metric::RequestLatency)
            }
            &&& same_spans_but(after.records, net.records, Metric::RequestLatency)
            &&& chunk_times(after.records) == chunk_times(net.records)
            &&& after.chunks == net.chunks
            &&& ok ==> failures(after.records) == failures(net.records)
            &&& !ok ==> {
                let kind = failures(after.records).last().1;
                &&& failures(after.records) == failures(net.records).push((t_recv, kind))
                &&& kind == ErrorKind::Http429 <==> status == 429
                &&& kind == ErrorKind::Http503 <==> status == 503
                &&& kind == ErrorKind::Http4xx <==> 400 <= status < 500 && status != 429
                &&& kind == ErrorKind::Http5xx <==> 500 <= status < 600 && status != 503
                &&& kind == ErrorKind::HttpOther <==> status < 400 || status >= 600
            }
            &&& after.open == net.open - 1
            &&& after.pending is None
            &&& after.counters == net.counters
            &&& after.live(slot as int) <==> reusable
            &&& reusable ==> after.conn(slot as int).request is None && after.conn(
                slot as int,
            ).served == (net.conn(slot as int).served + 1) as u32 && after.idle == net.idle.push(
                slot,
            )
            &&& forall|s: int|
                s != slot && 0 <= s < net.conns.len() ==> #[trigger] after.conns[s] == net.conns[s]
        }),
{
    let request = net.conn(slot as int).request->Some_0;
    let taken = net.taken(slot);
    let answered = net.answered(slot, mode, status, t_recv);
    let span = Record::Span {
        at_ns: t_recv,
        metric: Metric::RequestLatency,
        from_ns: request.sched_ns,
        to_ns: t_recv,
    };
    let done = Record::Request { done_ns: t_recv };
    assert(taken.records == net.records);
    lemma_push(net.records, span);
    lemma_push(net.records, done);
    lemma_push(net.records.push(span), done);
    lemma_push(
        net.records,
        Record::Error { failed_ns: t_recv, kind: shard::kind_of_status(status) },
    );
    let after = net.completed(slot, mode, status, t_recv, reusable);
    assert(after.records == answered.records);
    if status == 200 {
        if mode is Whole {
            assert(after.records == net.records.push(span).push(done));
        } else {
            assert(after.records == net.records.push(done));
        }
    }
    assert(spans(after.records, Metric::RequestLatency) =~= if status == 200 && mode is Whole {
        spans(net.records, Metric::RequestLatency).push((t_recv, request.sched_ns, t_recv))
    } else {
        spans(net.records, Metric::RequestLatency)
    });
    assert forall|m: Metric| m != Metric::RequestLatency implies #[trigger] spans(after.records, m)
        == spans(net.records, m) by {
        assert(spans(after.records, m) =~= spans(net.records, m));
    }
}

/// In a ramp, the end of a request counts in its own step alone: with status
/// 200 as one more success whose latency runs from the scheduled start, and
/// otherwise as one more failure without a latency. Either way one request
/// less is outstanding.
pub proof fn law_a_ramp_step_counts_the_end_of_its_request(
    before: RampTracker,
    after: RampTracker,
    status: u16,
    request: Request,
    t_recv: u64,
    other: u32,
)
    requires
        shard::request_done(
            Some(before),
            Some(after),
            request.step,
            shard::answered_latency(status, request, t_recv),
        ),
        before.acc(request.step) is Some,
        t_recv >= request.sched_ns,
        other != request.step,
    ensures
        after.acc(other) == before.acc(other),
        after.acc(request.step) is Some,
        ({
            let was = before.acc(request.step)->Some_0;
            let is = after.acc(request.step)->Some_0;
            let latency = (t_recv - request.sched_ns) as u64;
            &&& is.outstanding == was.outstanding - 1
            &&& is.requests + is.errors == was.requests + was.errors + 1
            &&& status == 200 <==> is.requests == was.requests + 1
            &&& status == 200 ==> is.samples == was.samples.insert(
                histogram::histogram_bucket(before.bounds.tuple(), latency),
            )
            &&& status != 200 ==> is.samples == was.samples
            &&& is.max_emit_lag_ns == was.max_emit_lag_ns
            &&& is.late_sends == was.late_sends
        }),
{
}

/// A failed connection is the loser of a keep-alive race exactly when it had
/// answered a request before, no byte of this response has arrived, this is
/// the first attempt, and it went out no more than 5 ms ago.
pub proof fn law_the_keep_alive_race_has_four_marks(conn: Connection, now: u64)
    requires
        conn.request is Some,
        now >= conn.request->Some_0.sent_ns,
    ensures
        shard::is_stale(conn, now) <==> conn.served >= 1 && !conn.parser.any
            && !conn.request->Some_0.retried && now - conn.request->Some_0.sent_ns <= 5_000_000,
{
}

/// A connection that fails with a request on it is gone, and leaves one more
/// error at that moment: of its kind, with which the request ends as a
/// failure, or that of a retry, with which the request stays open to be sent
/// again just as it was planned. No failure counts as a success or leaves a
/// latency.
pub proof fn law_a_failure_ends_a_request_or_retries_it(
    net: Net,
    slot: usize,
    kind: ErrorKind,
    now: u64,
    stale: bool,
)
    requires
        net.live(slot as int),
        net.conn(slot as int).request is Some,
        net.pending is None,
        net.counters.stale_retries < u64::MAX,
    ensures
        ({
            let after = net.failed(slot, kind, now, stale);
            let request = net.conn(slot as int).request->Some_0;
            &&& !after.live(slot as int)
            &&& after.errors == net.errors + 1
            &&& failures(after.records) == failures(net.records).push(
                (
                    now,
                    if stale {
                        ErrorKind::StaleRetry
                    } else {
                        kind
                    },
                ),
            )
            &&& after.requests == net.requests
            &&& successes(after.records) == successes(net.records)
            &&& forall|m: Metric| #[trigger] spans(after.records, m) == spans(net.records, m)
            &&& after.chunks == net.chunks
            &&& stale ==> {
                &&& after.open == net.open
                &&& after.counters.stale_retries == net.counters.stale_retries + 1
                &&& after.pending is Some
                &&& after.pending->Some_0.retried
                &&& after.pending->Some_0.sched_ns == request.sched_ns
                &&& after.pending->Some_0.sid == request.sid
                &&& after.pending->Some_0.chunks == request.chunks
                &&& after.pending->Some_0.step == request.step
            }
            &&& !stale ==> {
                &&& after.open == net.open - 1
                &&& after.pending is None
                &&& after.counters == net.counters
            }
            &&& forall|s: int|
                s != slot && 0 <= s < net.conns.len() ==> #[trigger] after.conns[s] == net.conns[s]
        }),
{
    let after = net.failed(slot, kind, now, stale);
    lemma_push(net.records, Record::Error { failed_ns: now, kind });
    lemma_push(net.records, Record::Error { failed_ns: now, kind: ErrorKind::StaleRetry });
    assert forall|m: Metric| #[trigger] spans(after.records, m) == spans(net.records, m) by {
        assert(spans(after.records, m) =~= spans(net.records, m));
    }
}

/// An idle connection that the peer closes costs no request: nothing is told
/// and no error counted, and the connection is gone from the pool.
pub proof fn law_a_lost_idle_connection_is_no_error(net: Net, slot: usize)
    requires
        net.live(slot as int),
        net.conn(slot as int).request is None,
        net.counters.idle_closed < u64::MAX,
    ensures
        ({
            let after = net.idle_lost(slot);
            &&& !after.live(slot as int)
            &&& after.records == net.records
            &&& after.errors == net.errors
            &&& after.requests == net.requests
            &&& after.open == net.open
            &&& after.pending == net.pending
            &&& after.counters.idle_closed == net.counters.idle_closed + 1
            &&& after.counters.stale_retries == net.counters.stale_retries
        }),
{
}

/// The next scheduled request is sent when, and only when, the shard has not
/// been stopped, its time has come, and the turn of the event loop has not
/// been firing for 1 ms yet: never before its time, and never after a stop.
pub proof fn law_a_request_is_sent_when_its_time_has_come(before: Shard, now: u64)
    requires
        before.woke_ns + 1_000_000 <= u64::MAX,
    ensures
        before.is_due(now) <==> !before.stop && before.next is Some
            && before.next->Some_0.sched_ns <= now && now < before.woke_ns + 1_000_000,
{
}

/// A request keeps the time it was scheduled for, however late it is started,
/// and asks for what was planned: two starts of the same arrival differ in
/// nothing but the stream id.
pub proof fn law_a_request_starts_as_planned(arrival: Arrival, sid: u64)
    ensures
        ({
            let request = shard::new_request(arrival, sid);
            &&& request.sched_ns == arrival.sched_ns
            &&& request.chunks == arrival.chunks
            &&& request.step == arrival.step
            &&& request.sid == sid
            &&& !request.retried
            &&& request.markers == 0
        }),
{
}

/// A started request goes to the connection that went idle last, which is
/// then no longer idle, or to a new one where none is idle. One more request
/// is scheduled and open, and nothing is told yet.
pub proof fn law_a_request_goes_to_the_connection_used_last(net: Net, request: Request)
    requires
        net.counters.requests_scheduled < u64::MAX,
    ensures
        ({
            let after = net.started(request);
            &&& after.open == net.open + 1
            &&& after.counters.requests_scheduled == net.counters.requests_scheduled + 1
            &&& after.pending == Some(request)
            &&& after.records == net.records
            &&& after.conns == net.conns
            &&& match net.dispatch(request) {
                Due::Reuse { slot, request: sent } => {
                    &&& sent == request
                    &&& net.idle == after.idle.push(slot)
                },
                Due::Connect { queued } => {
                    &&& queued == request
                    &&& net.idle.len() == 0
                    &&& after.idle.len() == 0
                },
                _ => false,
            }
        }),
{
    if net.idle.len() > 0 {
        assert(net.idle =~= net.idle.drop_last().push(net.idle.last()));
    }
}

/// A request written to a pooled connection leaves one emit lag, from its
/// scheduled time to the write, and is from then on in flight there with
/// that send time. Where the write fails, the emit lag is left all the same
/// and the request is to be retried; that is an error of its own, and the
/// connection is gone.
pub proof fn law_a_write_leaves_one_emit_lag(net: Net, slot: usize, t_emit: u64)
    requires
        net.live(slot as int),
        net.conn(slot as int).request is None,
        net.pending is Some,
        net.counters.reused_sends < u64::MAX,
        net.counters.stale_retries < u64::MAX,
    ensures
        ({
            let request = net.pending->Some_0;
            let sent = net.reused(slot, t_emit);
            let dead = net.found_dead(slot, t_emit);
            let lags = spans(net.records, Metric::EmitLag).push((t_emit, request.sched_ns, t_emit));
            &&& spans(sent.records, Metric::EmitLag) == lags
            &&& same_spans_but(sent.records, net.records, Metric::EmitLag)
            &&& failures(sent.records) == failures(net.records)
            &&& successes(sent.records) == successes(net.records)
            &&& sent.pending is None
            &&& sent.open == net.open
            &&& sent.counters.reused_sends == net.counters.reused_sends + 1
            &&& sent.conn(slot as int).request == Some(
                Request { sent_ns: t_emit, fresh: false, ..request },
            )
            &&& spans(dead.records, Metric::EmitLag) == lags
            &&& same_spans_but(dead.records, net.records, Metric::EmitLag)
            &&& failures(dead.records) == failures(net.records).push(
                (t_emit, ErrorKind::StaleRetry),
            )
            &&& successes(dead.records) == successes(net.records)
            &&& dead.errors == net.errors + 1
            &&& dead.open == net.open
            &&& dead.counters.stale_retries == net.counters.stale_retries + 1
            &&& dead.counters.reused_sends == net.counters.reused_sends
            &&& !dead.live(slot as int)
            &&& dead.pending is Some
            &&& dead.pending->Some_0.retried
            &&& dead.pending->Some_0.sched_ns == request.sched_ns
            &&& dead.pending->Some_0.sid == request.sid
        }),
{
    let request = net.pending->Some_0;
    let lag = Record::Span {
        at_ns: t_emit,
        metric: Metric::EmitLag,
        from_ns: request.sched_ns,
        to_ns: t_emit,
    };
    let error = Record::Error { failed_ns: t_emit, kind: ErrorKind::StaleRetry };
    lemma_push(net.records, lag);
    lemma_push(net.records.push(lag), error);
    let sent = net.reused(slot, t_emit);
    let dead = net.found_dead(slot, t_emit);
    assert(sent.records == net.records.push(lag));
    assert(dead.records == net.records.push(lag).push(error));
    let lags = spans(net.records, Metric::EmitLag).push((t_emit, request.sched_ns, t_emit));
    assert(spans(sent.records, Metric::EmitLag) =~= lags);
    assert(spans(dead.records, Metric::EmitLag) =~= lags);
    assert forall|m: Metric| m != Metric::EmitLag implies #[trigger] spans(sent.records, m)
        == spans(net.records, m) by {
        assert(spans(sent.records, m) =~= spans(net.records, m));
    }
    assert forall|m: Metric| m != Metric::EmitLag implies #[trigger] spans(dead.records, m)
        == spans(net.records, m) by {
        assert(spans(dead.records, m) =~= spans(net.records, m));
    }
}

/// An attempt to open a connection leaves one emit lag, from the scheduled
/// time to the attempt, unless it is a retry, which leaves none.
pub proof fn law_only_the_first_attempt_leaves_an_emit_lag(net: Net, t_emit: u64)
    requires
        net.pending is Some,
    ensures
        ({
            let after = net.attempted(t_emit);
            let request = net.pending->Some_0;
            &&& spans(after.records, Metric::EmitLag) == if request.retried {
                spans(net.records, Metric::EmitLag)
            } else {
                spans(net.records, Metric::EmitLag).push((t_emit, request.sched_ns, t_emit))
            }
            &&& same_spans_but(after.records, net.records, Metric::EmitLag)
            &&& failures(after.records) == failures(net.records)
            &&& successes(after.records) == successes(net.records)
            &&& after.errors == net.errors
            &&& after.requests == net.requests
            &&& after.open == net.open
            &&& after.pending == net.pending
            &&& after.counters == net.counters
            &&& after.conns == net.conns
        }),
{
    let request = net.pending->Some_0;
    let lag = Record::Span {
        at_ns: t_emit,
        metric: Metric::EmitLag,
        from_ns: request.sched_ns,
        to_ns: t_emit,
    };
    lemma_push(net.records, lag);
    let after = net.attempted(t_emit);
    assert(spans(after.records, Metric::EmitLag) =~= if request.retried {
        spans(net.records, Metric::EmitLag)
    } else {
        spans(net.records, Metric::EmitLag).push((t_emit, request.sched_ns, t_emit))
    });
    assert forall|m: Metric| m != Metric::EmitLag implies #[trigger] spans(after.records, m)
        == spans(net.records, m) by {
        assert(spans(after.records, m) =~= spans(net.records, m));
    }
}

/// A request whose connection was opened is in flight on it, in a slot that
/// was vacant, and no other connection changes; the connection has answered
/// nothing yet.
pub proof fn law_an_opened_connection_carries_its_request(net: Net, request: Request, s: int)
    requires
        net.free.len() > 0 ==> net.free.last() < net.conns.len() && !net.live(
            net.free.last() as int,
        ),
        net.counters.connections_opened < u64::MAX,
        net.live(s),
    ensures
        ({
            let after = net.one_more_connection().opened(request);
            let slot = net.next_slot();
            &&& !net.live(slot)
            &&& after.live(slot)
            &&& after.conn(slot).request == Some(request)
            &&& after.conn(slot).served == 0
            &&& after.conns[s] == net.conns[s]
            &&& after.counters.connections_opened == net.counters.connections_opened + 1
            &&& after.pending is None
            &&& after.open == net.open
            &&& after.records == net.records
        }),
{
}

/// A deadline that passed while the event loop waited was missed by waking
/// up late; one that passed before it waited, or after it woke, was missed
/// because the loop was busy. Each is one miss and not both, by as much as
/// the loop was late.
pub proof fn law_a_miss_has_one_cause(
    wait_started_ns: u64,
    woke_ns: u64,
    sched_ns: u64,
    miss_ns: u64,
)
    ensures
        ({
            let diag = shard::miss_diag(
                shard::miss_of(wait_started_ns, woke_ns, sched_ns),
                miss_ns,
            );
            let waiting = wait_started_ns <= sched_ns && sched_ns < woke_ns;
            &&& diag.late_wakeups + diag.busy_loop_misses == 1
            &&& diag.late_wakeups == 1 <==> waiting
            &&& diag.max_miss_ns == miss_ns
            &&& diag.fresh_sends == 0
            &&& diag.negative_slips == 0
            &&& diag.slips.len() == 0
            &&& diag.fresh_ttfts.len() == 0
        }),
{
    broadcast use vstd::multiset::group_multiset_axioms;

}

/// On a pooled connection the first marker tells when the mock had read the
/// request: the marker's planned time less the delay that was asked for. The
/// time from the send to that moment is the slip of the request; a moment
/// before the send is counted apart. A new connection has no slip, since its
/// handshake would count as one; a stream on it leaves its time to the first
/// chunk instead, from the scheduled start.
pub proof fn law_the_first_marker_tells_the_slip(
    mode: Mode,
    request: Request,
    marker: Marker,
    t_recv: u64,
    bounds: histogram::Bounds,
    delay_ns: u64,
)
    requires
        mode matches Mode::Stream { ttft_ns, .. } ==> ttft_ns == delay_ns,
        mode matches Mode::Whole { ttft_ns, .. } ==> ttft_ns == delay_ns,
        marker.t_sched >= delay_ns,
        t_recv >= request.sched_ns,
    ensures
        ({
            let diag = shard::first_marker_diag(mode, request, marker, t_recv, bounds);
            let slip = marker.t_sched - delay_ns - request.sent_ns;
            let none = Multiset::<u64>::empty();
            &&& diag.slips == if !request.fresh && slip >= 0 {
                none.insert(histogram::histogram_bucket(bounds.tuple(), slip as u64))
            } else {
                none
            }
            &&& diag.negative_slips == if !request.fresh && slip < 0 {
                1int
            } else {
                0
            }
            &&& diag.fresh_ttfts == if request.fresh && mode is Stream {
                none.insert(
                    histogram::histogram_bucket(
                        bounds.tuple(),
                        (t_recv - request.sched_ns) as u64,
                    ),
                )
            } else {
                none
            }
            &&& diag.late_wakeups == 0
            &&& diag.busy_loop_misses == 0
            &&& diag.fresh_sends == 0
        }),
{
}

/// A request in flight when its step is reported counts as one sample, of the
/// time since its scheduled start; a connection without a request of the step
/// counts as none.
pub proof fn law_open_requests_are_sampled_from_their_scheduled_start(
    entries: Seq<Option<Connection>>,
    more: Connection,
    step: u32,
    now: u64,
    bounds: (u64, u64, u8),
)
    requires
        more.request matches Some(request) ==> request.sched_ns <= now,
    ensures
        shard::open_samples(entries.push(Some(more)), step, now, bounds) == match more.request {
            Some(request) => if request.step == step {
                shard::open_samples(entries, step, now, bounds).insert(
                    histogram::histogram_bucket(bounds, (now - request.sched_ns) as u64),
                )
            } else {
                shard::open_samples(entries, step, now, bounds)
            },
            None => shard::open_samples(entries, step, now, bounds),
        },
        shard::open_samples(entries.push(None), step, now, bounds) == shard::open_samples(
            entries,
            step,
            now,
            bounds,
        ),
{
    assert(entries.push(Some(more)).drop_last() =~= entries);
    assert(entries.push(None::<Connection>).drop_last() =~= entries);
}

/// A request has timed out exactly when more time than allowed has passed
/// since its scheduled start, whenever it was sent.
pub proof fn law_a_timeout_runs_from_the_scheduled_start(before: Shard, slot: int, now: u64)
    requires
        before.slab.live(slot),
        before.slab.conn(slot).request is Some,
        before.slab.conn(slot).request->Some_0.sched_ns <= now,
    ensures
        before.is_expired(slot, now) <==> now - before.slab.conn(slot).request->Some_0.sched_ns
            > before.request_timeout_ns,
{
}

/// In a ramp, a request that starts counts in its own step alone, as one more
/// outstanding, and as late exactly when it started later than the p99 limit
/// of the ramp. The warmup is not counted.
pub proof fn law_a_ramp_step_counts_the_start_of_its_request(
    before: RampTracker,
    after: RampTracker,
    step: u32,
    lag_ns: u64,
    other: u32,
)
    requires
        shard::request_started(Some(before), Some(after), step, lag_ns),
        other != step,
    ensures
        after.acc(other) == before.acc(other),
        after.acc(0) == before.acc(0),
        step > 0 ==> {
            let was = before.so_far(step);
            let is = after.so_far(step);
            &&& after.acc(step) is Some
            &&& is.outstanding == was.outstanding + 1
            &&& is.late_sends == was.late_sends + if lag_ns > before.spec.stop_p99_ns {
                1int
            } else {
                0
            }
            &&& is.requests == was.requests
            &&& is.errors == was.errors
            &&& is.max_emit_lag_ns >= lag_ns
        },
        after.next_report == before.next_report,
        after.spec == before.spec,
{
}

/// The next step of a ramp is reported once its judging deadline has passed,
/// or as soon as it has ended with every send of it made and none
/// outstanding; not before it has ended, and not while a send of it is still
/// to come.
pub proof fn law_a_step_is_reported_when_it_is_over(
    before: Shard,
    tracker: RampTracker,
    now: u64,
)
    requires
        before.ramp == Some(tracker),
        tracker.next_report < tracker.spec.steps@.len(),
        tracker.spec.steps@[tracker.next_report as int].end_ns + tracker.spec.judge_delay_ns
            <= u64::MAX,
    ensures
        ({
            let seg = tracker.spec.steps@[tracker.next_report as int];
            let deadline = seg.end_ns + tracker.spec.judge_delay_ns;
            let sent = before.next is None || before.next->Some_0.step > seg.step;
            before.step_is_due(seg, now) <==> now >= deadline || (now >= seg.end_ns && sent
                && tracker.so_far(seg.step).outstanding == 0)
        }),
{
}

/// Every request in flight at the end leaves its own bounds, once: one more
/// connection adds those of the request it carries and nothing else.
pub proof fn law_every_open_request_leaves_its_bounds_once(
    mode: Mode,
    entries: Seq<Option<Connection>>,
    more: Option<Connection>,
    now: u64,
)
    ensures
        ({
            let before = shard::requests_of(entries);
            let after = shard::requests_of(entries.push(more));
            &&& !(more matches Some(c) && c.request is Some) ==> after == before
            &&& (more matches Some(c) && c.request is Some) ==> {
                let request = more->Some_0.request->Some_0;
                let bounds = censor::lower_bounds(mode, request, now);
                &&& after == before.push(request)
                &&& shard::all_bounds(mode, after, now) == shard::all_bounds(mode, before, now)
                    + bounds
                &&& shard::leaving(mode, after, now) == shard::leaving(mode, before, now) + if
                    bounds.len() > 0 {
                    1int
                } else {
                    0
                }
            }
        }),
{
    assert(entries.push(more).drop_last() =~= entries);
    if more matches Some(c) && c.request is Some {
        let before = shard::requests_of(entries);
        let request = more->Some_0.request->Some_0;
        assert(before.push(request).drop_last() =~= before);
    }
}

/// A connection that ends completes a response only if the body has no other
/// end; any other response in progress is cut short.
pub proof fn law_the_end_of_the_connection_ends_only_an_open_body(parser: ResponseParser)
    ensures
        shard::end_of_input(parser) matches Ok(c) ==> (parser.state matches State::Body {
            framing,
            status,
            keep_alive,
        } && framing == Framing::UntilEof && c.status == status && c.keep_alive == keep_alive),
        !(parser.state matches State::Body { framing, .. } && framing == Framing::UntilEof)
            ==> shard::end_of_input(parser) == Err::<Completion, ResponseError>(
            ResponseError::Truncated,
        ),
        parser.state matches State::Body { framing, .. } && framing == Framing::UntilEof
            && !parser.sink.scan ==> shard::end_of_input(parser) is Ok,
{
}

/// The loop never sleeps past what is due: the next sample, the next second,
/// the end of the run, the report of the next ramp step, or, once stopped,
/// the end of the drain. It sleeps until the first of them.
pub proof fn law_the_loop_wakes_for_whatever_is_due_first(s: Shard, now: u64)
    ensures
        ({
            let until = now + s.longest_wait(now);
            let wake = s.wake_by();
            &&& s.stopped matches Some((_, drain_end)) ==> wake == drain_end
            &&& s.stopped is None ==> wake <= s.end_ns
            &&& s.stopped is None && !(s.ramp matches Some(t) && t.next_report
                < t.spec.steps@.len()) ==> wake == s.end_ns
            &&& s.stopped is None && (s.ramp matches Some(t) && t.next_report
                < t.spec.steps@.len()) ==> {
                let t = s.ramp->Some_0;
                let due = t.spec.steps@[t.next_report as int].end_ns + t.spec.judge_delay_ns;
                &&& wake <= due
                &&& wake == due || wake == s.end_ns || wake == u64::MAX
            }
            &&& now <= s.next_sample && now <= s.next_second && now <= wake ==> {
                &&& until <= s.next_sample
                &&& until <= s.next_second
                &&& until <= wake
                &&& until == s.next_sample || until == s.next_second || until == wake
            }
            &&& now > s.next_sample || now > s.next_second || now > wake ==> until == now
        }),
{
}

/// A send that is reached later than the ramp allows saturates it; without a
/// ramp no send does.
pub proof fn law_a_send_too_late_saturates_a_ramp(s: Shard, lag_ns: u64)
    ensures
        s.ramp is None ==> !s.saturates(lag_ns),
        s.ramp matches Some(t) ==> (s.saturates(lag_ns) <==> lag_ns > t.spec.saturation_lag_ns),
{
}

} // verus!
