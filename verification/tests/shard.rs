use std::collections::BTreeMap;

use brisk_bench::histogram::{Bounds, Latencies};
use brisk_bench::http::ResponseHead;
use brisk_bench::loadgen::censor::Metric;
use brisk_bench::loadgen::diagnostics::Diagnostics;
use brisk_bench::loadgen::errors::ErrorKind;
use brisk_bench::loadgen::flight::{Mode, Request};
use brisk_bench::loadgen::ramp::StepReport;
use brisk_bench::loadgen::response::{Completion, Feed, ResponseError};
use brisk_bench::loadgen::schedule::{ramp_segments, Arrival, FixedArrivals, Point, RateSegment, SEC_NS};
use brisk_bench::loadgen::shard::{
    Connected, Due, Record, Sent, Shard, ShardConfig, ShardOutput, Turn, STALE_WINDOW_NS,
};
use brisk_bench::loadgen::tracker::RampSpec;
use brisk_bench::wire::{BodyFraming, Marker};

const BOUNDS: Bounds = Bounds { low: 1, high: 3_600_000_000_000, sigfig: 3 };

/// Chunks per streaming request.
const CHUNKS: u32 = 3;
/// Chunk interval the requests ask for.
const INTERVAL_NS: u64 = 1_000_000;
/// How long the responder takes.
const ANSWER_NS: u64 = 200_000;

const STREAM: Mode = Mode::Stream { ttft_ns: 0, interval_ns: INTERVAL_NS };
const WHOLE: Mode = Mode::Whole { ttft_ns: 0, marker: true };

#[derive(Debug, Clone, Copy, PartialEq, Eq)]
enum Behavior {
    /// Answer every request.
    Serve,
    /// Answer the first request of a connection, then read the second one
    /// and close without answering: a keep-alive race lost by the client.
    DropSecondRequest,
    /// Like [`Behavior::DropSecondRequest`], but close only after working on
    /// the second request for a while: a server failure, not a race.
    DropSecondRequestLate,
    /// Read the request and close without answering.
    CloseWithoutResponse,
    /// Read the request and never answer.
    Hold,
    /// Send the head and the first chunk of a stream, then stall.
    StallAfterFirstChunk,
}

/// What the responder does on a connection.
#[derive(Debug, Clone, Copy)]
enum Answer {
    /// A whole response to this stream id.
    Whole { sid: u64 },
    /// So many chunks of a stream, and its end.
    Stream { sid: u64, chunks: u32, end: bool },
    /// The connection closes.
    Close,
}

/// A shard on a clock of its own, against a responder.
struct Sim {
    shard: Shard,
    arrivals: FixedArrivals,
    behavior: Behavior,
    now: u64,
    /// Answers on their way, by time.
    answers: BTreeMap<(u64, u64), (usize, Answer)>,
    sent: u64,
    /// Requests read by the responder on each connection.
    reads: BTreeMap<usize, u32>,
    records: Vec<Record>,
    reports: Vec<StepReport>,
}

/// The next request of the schedule.
fn next_arrival(arrivals: &mut FixedArrivals) -> Option<Arrival> {
    while let Some((k, rate)) = arrivals.next_point() {
        let offset = (k as f64 / f64::from_bits(rate) * 1e9).round() as u64;
        if let Point::Mine(arrival) = arrivals.take(offset) {
            return Some(arrival);
        }
    }
    None
}

impl Sim {
    fn answer(&mut self, slot: usize, delay: u64, answer: Answer) {
        self.sent += 1;
        self.answers.insert((self.now + delay, self.sent), (slot, answer));
    }

    /// The responder reads a request.
    fn request_sent(&mut self, slot: usize, request: Request) {
        let reads = self.reads.entry(slot).or_insert(0);
        *reads += 1;
        let second = *reads == 2;
        let sid = request.sid;
        match self.behavior {
            Behavior::CloseWithoutResponse => self.answer(slot, ANSWER_NS, Answer::Close),
            Behavior::DropSecondRequest if second => self.answer(slot, ANSWER_NS, Answer::Close),
            Behavior::DropSecondRequestLate if second => {
                self.answer(slot, 30_000_000, Answer::Close)
            }
            Behavior::Hold => {}
            Behavior::StallAfterFirstChunk => {
                self.answer(slot, ANSWER_NS, Answer::Stream { sid, chunks: 1, end: false })
            }
            _ => {
                let answer = match self.shard.mode {
                    Mode::Stream { .. } => {
                        Answer::Stream { sid, chunks: request.chunks, end: true }
                    }
                    Mode::Whole { .. } => Answer::Whole { sid },
                };
                self.answer(slot, ANSWER_NS, answer)
            }
        }
    }

    fn connect(&mut self, request: Request) {
        let slot = self.shard.connected(self.now, Connected::Queued).unwrap();
        self.reads.insert(slot, 0);
        self.request_sent(slot, request);
    }

    fn after(&mut self, sent: Sent) {
        if let Sent::Retry { again } = sent {
            self.connect(again);
        }
    }

    fn fire(&mut self) {
        loop {
            match self.shard.fire_due(self.now, self.now) {
                Due::Nothing => return,
                Due::Saturated { .. } => return,
                Due::Reuse { slot, request } => {
                    let sent = self.shard.wrote(slot, self.now, true);
                    assert_eq!(sent, Sent::Settled);
                    self.request_sent(slot, request);
                }
                Due::Connect { queued } => self.connect(queued),
            }
            let next = next_arrival(&mut self.arrivals);
            self.shard.set_next(next);
        }
    }

    /// Feeds a head, and hands back the rest of the input.
    fn feed_head(&mut self, slot: usize, head: &str, framing: BodyFraming) {
        let parser = self.shard.parser_mut(slot).unwrap();
        let (parsed, rest): (ResponseHead, Vec<u8>) = match parser.feed(head.as_bytes()) {
            Ok(Feed::Head { head, rest }) => (head, rest),
            other => panic!("{other:?}"),
        };
        assert!(rest.is_empty());
        assert!(matches!(parser.framed(&parsed, Ok(framing), &rest), Ok(Feed::Wait)));
    }

    fn handle(&mut self, slot: usize, answer: Answer) {
        if self.shard.parser_mut(slot).is_none() {
            return;
        }
        let now = self.now;
        if let Answer::Close = answer {
            let sent = self.shard.on_eof(slot, now, true);
            self.after(sent);
            return;
        }
        self.shard.received_batch(true);
        assert!(self.shard.begin_data(slot, now));
        let marker = |sid, seq| Marker { sid, seq, t_sched: now, t_write: now };
        let mut taken: Vec<Marker> = Vec::new();
        let fed: Result<Option<Completion>, ResponseError> = match answer {
            Answer::Whole { sid } => {
                let head = "HTTP/1.1 200 OK\r\ncontent-length: 100\r\n\r\n";
                self.feed_head(slot, head, BodyFraming::Length(100));
                let body = [b'x'; 100];
                let parser = self.shard.parser_mut(slot).unwrap();
                assert!(matches!(parser.feed(&body), Ok(Feed::Body { take: 100 })));
                let markers = [marker(sid, 0)];
                let (n, fed) = parser.received(&body, &markers, None);
                taken.extend_from_slice(&markers[..n]);
                fed
            }
            Answer::Stream { sid, chunks, end } => {
                let head = "HTTP/1.1 200 OK\r\ntransfer-encoding: chunked\r\n\r\n";
                self.feed_head(slot, head, BodyFraming::Chunked);
                let parser = self.shard.parser_mut(slot).unwrap();
                let input = [b'x'; 50];
                assert!(matches!(parser.feed(&input), Ok(Feed::Chunks)));
                for seq in 0..chunks {
                    let markers = [marker(sid, seq)];
                    let n = parser.chunk_data(b"data: x\n\n", &markers, None);
                    taken.extend_from_slice(&markers[..n]);
                }
                if end {
                    parser.chunk_data(b"data: [DONE]\n\n", &[], None);
                }
                parser.decoded(&input, Ok((50, end)))
            }
            Answer::Close => unreachable!(),
        };
        self.shard.on_markers(slot, &taken, now);
        match fed {
            Ok(None) => {}
            Ok(Some(completion)) => {
                self.shard.complete(slot, completion, now, true);
            }
            Err(e) => {
                let sent = self.shard.fail(slot, e.kind(), false, now);
                assert_eq!(sent, Sent::Settled);
            }
        }
    }

    fn report(&mut self, cutoff: u64) {
        let mut report = self.shard.open_report(self.now);
        while self.shard.drop_next(&mut report, self.now, cutoff) {
            let next = next_arrival(&mut self.arrivals);
            self.shard.set_next(next);
        }
        self.reports.push(report);
    }

    fn run(&mut self) {
        loop {
            self.shard.see_stop(self.now);
            if self.shard.stopped.is_none() {
                while self.shard.due_step(self.now).is_some() {
                    self.report(self.now);
                }
            }
            let until = match self.shard.turn(self.now) {
                Turn::Drained { stop_ns } => {
                    while self.shard.stopped_step(stop_ns).is_some() {
                        self.report(stop_ns);
                    }
                    return;
                }
                Turn::Over => return,
                Turn::Wait { precise, wait_ns } => {
                    let waited = self.now + wait_ns;
                    precise.map_or(waited, |t| t.min(waited))
                }
            };
            let answered = self.answers.keys().next().map_or(until, |(t, _)| *t);
            let started = self.now;
            self.now = until.min(answered).max(self.now);
            self.shard.awake(started, self.now);
            while let Some((&key, &(slot, answer))) = self.answers.iter().next() {
                if key.0 > self.now {
                    break;
                }
                self.answers.remove(&key);
                self.handle(slot, answer);
            }
            self.fire();
            self.shard.sample(self.now);
            if self.shard.second_passed(self.now) {
                for slot in self.shard.expired(self.now) {
                    self.shard.expire(slot, self.now);
                }
            }
            self.records.extend(self.shard.take_records());
        }
    }
}

struct Run {
    output: ShardOutput,
    records: Vec<Record>,
    reports: Vec<StepReport>,
    origin_ns: u64,
}

impl Run {
    fn requests(&self) -> u64 {
        self.records.iter().filter(|r| matches!(r, Record::Request { .. })).count() as u64
    }

    fn chunks(&self) -> u64 {
        self.records.iter().filter(|r| matches!(r, Record::Chunk { .. })).count() as u64
    }

    fn errors(&self) -> BTreeMap<&'static str, u64> {
        let mut errors = BTreeMap::new();
        for record in &self.records {
            if let Record::Error { kind, .. } = record {
                *errors.entry(kind.as_str()).or_insert(0) += 1;
            }
        }
        errors
    }

    /// Every latency of the metric, the lower bounds included.
    fn latencies(&self, metric: Metric) -> Latencies {
        let mut all = Latencies::new(BOUNDS);
        for record in &self.records {
            if let Record::Span { metric: m, from_ns, to_ns, .. } = record {
                if *m == metric {
                    all.record(to_ns - from_ns);
                }
            }
        }
        for (_, m, samples) in &self.output.censored.samples {
            if *m == metric {
                for (value, count) in samples.recorded() {
                    all.record_n(value, count);
                }
            }
        }
        all
    }

    fn count(&self, metric: Metric) -> u64 {
        self.latencies(metric).count()
    }

    fn min(&self, metric: Metric) -> u64 {
        self.latencies(metric).recorded()[0].0
    }

    fn max(&self, metric: Metric) -> u64 {
        self.latencies(metric).recorded().last().unwrap().0
    }
}

fn run_shard(
    behavior: Behavior,
    mode: Mode,
    segments: Vec<RateSegment>,
    end_ns: u64,
    timeout_ns: u64,
    ramp: Option<RampSpec>,
) -> Run {
    let origin_ns = segments[0].start_ns;
    let mut arrivals = FixedArrivals::new(segments, 0, 1, CHUNKS);
    let first = next_arrival(&mut arrivals);
    let config = ShardConfig {
        index: 0,
        mode,
        origin_ns,
        end_ns,
        request_timeout_ns: timeout_ns,
        bounds: BOUNDS,
        ramp,
    };
    let mut sim = Sim {
        shard: Shard::new(config, first),
        arrivals,
        behavior,
        now: origin_ns - 20_000_000,
        answers: BTreeMap::new(),
        sent: 0,
        reads: BTreeMap::new(),
        records: Vec::new(),
        reports: Vec::new(),
    };
    sim.run();
    let records = sim.records;
    let reports = sim.reports;
    Run { output: sim.shard.finish(), records, reports, origin_ns }
}

fn fixed(rate: f64, ms: u64) -> (Vec<RateSegment>, u64) {
    let origin = 7_020_000_000;
    let end = origin + ms * 1_000_000;
    (vec![RateSegment { start_ns: origin, end_ns: end, rate: rate.to_bits(), step: 0 }], end)
}

#[test]
fn streams_record_ttft_and_chunk_metrics() {
    let (segments, end) = fixed(20.0, 1_000);
    let run = run_shard(Behavior::Serve, STREAM, segments, end + 100_000_000, SEC_NS * 5, None);
    let c = run.output.counters;
    assert_eq!(c.requests_scheduled, 20);
    assert!(run.errors().is_empty(), "{:?}", run.errors());
    assert_eq!(run.requests() + c.open_at_end, 20);
    assert_eq!(run.requests(), 20, "all done long before the end");
    assert_eq!(run.count(Metric::Ttft), 20);
    assert_eq!(run.count(Metric::ChunkLatency), 60);
    assert_eq!(run.count(Metric::ChunkWire), 60);
    assert_eq!(run.count(Metric::MockWriteLag), 60);
    assert_eq!(run.count(Metric::EmitLag), 20);
    assert_eq!(run.count(Metric::RequestLatency), 0);
    assert_eq!(run.chunks(), 60);
    // Sequential requests share one keep-alive connection.
    assert_eq!(c.connections_opened, 1);
    assert_eq!(c.reused_sends, 19);
    assert_eq!(c.rx_batches_without_timestamp, 0);
    assert_eq!(c.censored_requests, 0);
    // The first request pays for the connection; the pooled ones measure the
    // slip up to the responder, which stamps its markers on reading.
    assert_eq!(run.count(Metric::TtftReused), 19);
    let d = Diagnostics::summarize(&run.output.diagnostics, 0);
    assert_eq!(d.fresh_conn_sends, 1);
    assert_eq!(d.fresh_conn_ttft.map(|s| s.count()), Some(1));
    let slip = d.request_slip.expect("pooled sends measure the slip");
    assert_eq!(slip.count(), 19);
    assert!(slip.recorded().last().unwrap().0 < 100_000_000, "{slip:?}");
    assert_eq!(d.negative_slips, 0);
}

#[test]
fn whole_responses_record_request_latency_and_mock_write_lag() {
    let (segments, end) = fixed(20.0, 1_000);
    let run = run_shard(Behavior::Serve, WHOLE, segments, end + 100_000_000, SEC_NS * 5, None);
    assert!(run.errors().is_empty(), "{:?}", run.errors());
    assert_eq!(run.requests(), 20);
    assert_eq!(run.count(Metric::RequestLatency), 20);
    // One marker per response: the mock's write lag and the wire time.
    assert_eq!(run.count(Metric::MockWriteLag), 20);
    assert_eq!(run.count(Metric::ChunkWire), 20);
    // A whole response is not a stream: no TTFT, chunk latency or chunks.
    assert_eq!(run.count(Metric::Ttft), 0);
    assert_eq!(run.count(Metric::ChunkLatency), 0);
    assert_eq!(run.chunks(), 0);
}

#[test]
fn whole_responses_without_their_marker_are_errors() {
    let (segments, end) = fixed(10.0, 500);
    // The responder embeds a marker, but the shard is told a marker-free
    // response is expected: the marker is one too many.
    let plain = Mode::Whole { ttft_ns: 0, marker: false };
    let run = run_shard(Behavior::Serve, plain, segments, end + 100_000_000, SEC_NS * 5, None);
    assert_eq!(run.requests(), 0);
    assert_eq!(
        run.errors().get("marker_mismatch"),
        Some(&run.output.counters.requests_scheduled),
        "{:?}",
        run.errors()
    );
}

#[test]
fn stale_keep_alive_connections_are_retried_once() {
    let (segments, end) = fixed(10.0, 1_000);
    let run = run_shard(
        Behavior::DropSecondRequest,
        WHOLE,
        segments,
        end + 200_000_000,
        SEC_NS * 5,
        None,
    );
    let c = run.output.counters;
    assert_eq!(c.requests_scheduled, 10);
    assert_eq!(run.requests(), 10, "{:?}", run.errors());
    // Every request after the first finds its pooled connection dead and
    // succeeds on a fresh one.
    assert_eq!(run.errors().get("stale_retry"), Some(&9), "{:?}", run.errors());
    assert_eq!(run.errors().len(), 1, "{:?}", run.errors());
    assert_eq!(c.stale_retries, 9);
    assert_eq!(c.connections_opened, 10);
    assert_eq!(run.count(Metric::RequestLatency), 10);
    // The retry keeps the original scheduled time, so its latency includes
    // the failed attempt; the emit lag is recorded once per request.
    assert_eq!(run.count(Metric::EmitLag), 10);
    assert!(run.max(Metric::RequestLatency) >= 2 * ANSWER_NS);
}

#[test]
fn pooled_connections_closed_after_the_stale_window_are_errors() {
    assert!(STALE_WINDOW_NS < 30_000_000);
    let (segments, end) = fixed(10.0, 1_000);
    let run = run_shard(
        Behavior::DropSecondRequestLate,
        WHOLE,
        segments,
        end + 200_000_000,
        SEC_NS * 5,
        None,
    );
    let c = run.output.counters;
    // The server takes 30 ms to fail each second request of a connection: it
    // worked on the request, so no retry hides the failure. Requests
    // alternate between a fresh connection (served) and its reuse (failed).
    assert_eq!(c.requests_scheduled, 10);
    assert_eq!(c.stale_retries, 0);
    assert_eq!(run.errors().get("eof"), Some(&5), "{:?}", run.errors());
    assert_eq!(run.errors().len(), 1, "{:?}", run.errors());
    assert_eq!(run.requests(), 5);
}

#[test]
fn fresh_connections_closed_without_response_are_errors() {
    let (segments, end) = fixed(10.0, 500);
    let run = run_shard(
        Behavior::CloseWithoutResponse,
        WHOLE,
        segments,
        end + 200_000_000,
        SEC_NS * 5,
        None,
    );
    let c = run.output.counters;
    assert_eq!(run.requests(), 0);
    assert_eq!(c.stale_retries, 0);
    assert_eq!(
        run.errors().get("eof"),
        Some(&c.requests_scheduled),
        "{:?}",
        run.errors()
    );
}

#[test]
fn timed_out_requests_leave_their_latency_as_a_lower_bound() {
    let (segments, end) = fixed(4.0, 500);
    // Timeouts are checked once per second.
    let run = run_shard(
        Behavior::Hold,
        WHOLE,
        segments,
        end + 1_600_000_000,
        300_000_000,
        None,
    );
    let c = run.output.counters;
    assert_eq!(run.requests(), 0);
    assert_eq!(
        run.errors().get("timeout"),
        Some(&c.requests_scheduled),
        "{:?}",
        run.errors()
    );
    assert_eq!(c.open_at_end, 0);
    // Each timed-out request is in the latency distribution with at least
    // the timeout, not silently dropped.
    assert_eq!(run.count(Metric::RequestLatency), c.requests_scheduled);
    assert!(run.min(Metric::RequestLatency) >= 299_000_000);
    assert_eq!(c.censored_requests, c.requests_scheduled);
    assert_eq!(c.censored_samples, c.requests_scheduled);
}

#[test]
fn requests_open_at_the_end_leave_their_latency_as_a_lower_bound() {
    let (segments, end) = fixed(10.0, 300);
    let run =
        run_shard(Behavior::Hold, WHOLE, segments, end + 100_000_000, SEC_NS * 10, None);
    let c = run.output.counters;
    assert_eq!(c.requests_scheduled, 3);
    assert_eq!(c.open_at_end, 3);
    assert!(run.errors().is_empty(), "{:?}", run.errors());
    // Scheduled 400, 300 and 200 ms before the end.
    assert_eq!(run.count(Metric::RequestLatency), 3);
    assert!(run.min(Metric::RequestLatency) >= 199_000_000);
    assert!(run.max(Metric::RequestLatency) >= 399_000_000);
    assert_eq!((c.censored_requests, c.censored_samples), (3, 3));
    // The bounds join the last interval of the run.
    let last = (run.output.end_ns - 1 - run.origin_ns) / SEC_NS;
    let (samples, saturated) = run.output.censored.settle(Some(last));
    assert!(saturated.is_empty());
    assert_eq!(samples.len(), 1);
    assert_eq!((samples[0].0, samples[0].1), (last, Metric::RequestLatency));
    assert_eq!(samples[0].2.count(), 3);
}

#[test]
fn unanswered_streams_leave_a_ttft_lower_bound() {
    let (segments, end) = fixed(10.0, 300);
    let run =
        run_shard(Behavior::Hold, STREAM, segments, end + 100_000_000, SEC_NS * 10, None);
    let c = run.output.counters;
    assert_eq!(c.open_at_end, 3);
    assert_eq!(run.count(Metric::Ttft), 3);
    assert!(run.min(Metric::Ttft) >= 199_000_000);
    // Without a marker the mock's chunk schedule is unknown.
    assert_eq!(run.count(Metric::ChunkLatency), 0);
    assert_eq!((c.censored_requests, c.censored_samples), (3, 3));
}

#[test]
fn stalled_streams_leave_lower_bounds_for_their_overdue_chunks() {
    let (segments, end) = fixed(10.0, 300);
    let run = run_shard(
        Behavior::StallAfterFirstChunk,
        STREAM,
        segments,
        end + 100_000_000,
        SEC_NS * 10,
        None,
    );
    let c = run.output.counters;
    assert_eq!(c.open_at_end, 3);
    // The first chunk of each stream arrived; chunks 1 and 2 were due 1 and
    // 2 ms after it, which is up to 400 ms before the end (less the time the
    // responder took to accept and answer).
    assert_eq!(run.count(Metric::Ttft), 3);
    let chunks = run.latencies(Metric::ChunkLatency).recorded();
    assert_eq!(run.count(Metric::ChunkLatency), 3 + 3 * 2);
    let max = run.max(Metric::ChunkLatency);
    assert!((300_000_000..400_000_000).contains(&max), "{max}");
    let overdue: u64 = chunks
        .iter()
        .filter(|(v, _)| (150_000_000..400_000_000).contains(v))
        .map(|(_, n)| n)
        .sum();
    assert_eq!(overdue, 6);
    assert_eq!((c.censored_requests, c.censored_samples), (3, 6));
}

/// 20/s and 30/s for 300 ms each, after a warmup of 200 ms.
fn ramp_plan() -> (Vec<RateSegment>, Vec<RateSegment>) {
    let rates = [20.0f64.to_bits(), 30.0f64.to_bits()];
    let segments =
        ramp_segments(7_020_000_000, 200_000_000, 20.0f64.to_bits(), &rates, 300_000_000);
    let steps = segments.iter().copied().filter(|s| s.step > 0).collect();
    (segments, steps)
}

#[test]
fn ramp_steps_are_reported_once_judgeable() {
    let (segments, steps) = ramp_plan();
    let end = steps.last().unwrap().end_ns + 100_000_000;
    let spec = RampSpec {
        steps,
        judge_delay_ns: 2_000_000,
        saturation_lag_ns: 100_000_000,
        stop_p99_ns: 2_000_000,
    };
    let run = run_shard(Behavior::Serve, WHOLE, segments, end, SEC_NS * 5, Some(spec));
    let steps: Vec<u32> = run.reports.iter().map(|r| r.step).collect();
    assert_eq!(steps, [1, 2]);
    // 20/s and 30/s for 300 ms each.
    assert_eq!(run.reports[0].requests + run.reports[0].censored, 6);
    assert_eq!(run.reports[1].requests + run.reports[1].censored, 9);
    assert!(run
        .reports
        .iter()
        .all(|r| r.errors == 0 && r.latency.count() == r.requests + r.censored));
    assert_eq!(run.output.counters.requests_scheduled, 4 + 6 + 9);
}

#[test]
fn open_requests_of_a_step_are_censored_in_its_report() {
    let (segments, steps) = ramp_plan();
    let end = steps.last().unwrap().end_ns + 100_000_000;
    let spec = RampSpec {
        steps,
        judge_delay_ns: 10_000_000,
        saturation_lag_ns: 100_000_000,
        stop_p99_ns: 2_000_000,
    };
    let run = run_shard(Behavior::Hold, WHOLE, segments, end, SEC_NS * 5, Some(spec));
    assert_eq!(run.reports.len(), 2);
    assert_eq!(run.reports[0].requests, 0);
    assert_eq!((run.reports[0].censored, run.reports[0].unsent), (6, 0));
    assert_eq!((run.reports[1].censored, run.reports[1].unsent), (9, 0));
    // The last send of step 1 was due 50 ms before the end of the step, and
    // the report came 10 ms after it.
    assert!(run.reports[0].latency.recorded()[0].0 >= 59_000_000);
}

#[test]
fn a_late_send_saturates_a_ramp_shard() {
    let (segments, steps) = ramp_plan();
    let start = segments[0].start_ns;
    let mut arrivals = FixedArrivals::new(segments, 0, 1, CHUNKS);
    let first = next_arrival(&mut arrivals);
    let config = ShardConfig {
        index: 0,
        mode: WHOLE,
        origin_ns: start,
        end_ns: start + 10 * SEC_NS,
        request_timeout_ns: SEC_NS,
        bounds: BOUNDS,
        ramp: Some(RampSpec {
            steps,
            judge_delay_ns: 2_000_000,
            saturation_lag_ns: 100_000,
            stop_p99_ns: 2_000_000,
        }),
    };
    let mut shard = Shard::new(config, first);
    let late = start + 100_001;
    shard.awake(start, late);
    assert_eq!(
        shard.fire_due(late, late),
        Due::Saturated { step: 0, lag_ns: 100_001 }
    );
    assert!(shard.stop);
    assert_eq!(shard.fire_due(late, late), Due::Nothing);
    shard.see_stop(late);
    assert_eq!(shard.turn(late), Turn::Drained { stop_ns: late });
    assert_eq!(shard.end_ns, late);
}

#[test]
fn data_without_a_request_closes_the_connection() {
    let (segments, end) = fixed(10.0, 300);
    let mut sim = Sim {
        shard: Shard::new(
            ShardConfig {
                index: 3,
                mode: WHOLE,
                origin_ns: segments[0].start_ns,
                end_ns: end,
                request_timeout_ns: SEC_NS,
                bounds: BOUNDS,
                ramp: None,
            },
            None,
        ),
        arrivals: FixedArrivals::new(segments.clone(), 0, 1, 1),
        behavior: Behavior::Serve,
        now: segments[0].start_ns,
        answers: BTreeMap::new(),
        sent: 0,
        reads: BTreeMap::new(),
        records: Vec::new(),
        reports: Vec::new(),
    };
    let first = next_arrival(&mut sim.arrivals);
    sim.shard.set_next(first);
    sim.shard.awake(sim.now, sim.now);
    let request = match sim.shard.fire_due(sim.now, sim.now) {
        Due::Connect { queued } => queued,
        other => panic!("{other:?}"),
    };
    assert_eq!(request.sid, 3 << 48);
    sim.connect(request);
    sim.now += ANSWER_NS;
    sim.handle(0, Answer::Whole { sid: request.sid });
    assert!(!sim.shard.begin_data(0, sim.now));
    let errors: Vec<ErrorKind> = sim
        .shard
        .take_records()
        .iter()
        .filter_map(|r| match r {
            Record::Error { kind, .. } => Some(*kind),
            _ => None,
        })
        .collect();
    assert_eq!(errors, [ErrorKind::Unsolicited]);
    assert!(sim.shard.parser_mut(0).is_none());
}

#[test]
fn failed_connections_are_errors() {
    for outcome in [Connected::Failed, Connected::WriteFailed] {
        let (segments, end) = fixed(10.0, 300);
        let start = segments[0].start_ns;
        let mut arrivals = FixedArrivals::new(segments, 0, 1, 1);
        let first = next_arrival(&mut arrivals);
        let mut shard = Shard::new(
            ShardConfig {
                index: 0,
                mode: WHOLE,
                origin_ns: start,
                end_ns: end,
                request_timeout_ns: SEC_NS,
                bounds: BOUNDS,
                ramp: None,
            },
            first,
        );
        shard.awake(start, start);
        assert!(matches!(shard.fire_due(start, start), Due::Connect { .. }));
        assert_eq!(shard.connected(start, outcome), None);
        assert_eq!((shard.open, shard.errors_total), (0, 1));
        let opened = if outcome == Connected::Failed { 0 } else { 1 };
        assert_eq!(shard.counters.connections_opened, opened);
        let records = shard.take_records();
        assert!(matches!(
            records.last(),
            Some(Record::Error { kind: ErrorKind::Connect, .. })
        ));
    }
}
