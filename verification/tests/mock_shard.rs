use brisk_bench::histogram::Bounds;
use brisk_bench::mock::inspect::{ChatRequest, Inspected};
use brisk_bench::mock::request::{Head, Method, Route, State};
use brisk_bench::mock::shard::{Dispatched, Firing, Shard, Work};
use brisk_bench::mock::stats::Stats;
use brisk_bench::wire::{BenchParams, BodyFraming, Marker};

const BOUNDS: Bounds = Bounds { low: 1, high: 3_600_000_000_000, sigfig: 3 };

fn params(sid: u64, chunks: u32, interval_us: u64) -> BenchParams {
    BenchParams { ttft_us: 10, interval_us, chunks, chunk_bytes: 80, sid, resp_bytes: 0 }
}

fn start(shard: &mut Shard, stats: &mut Stats, p: BenchParams, t0: u64) -> usize {
    let slot = shard.take_slot();
    shard.add_connection(slot);
    let chat =
        ChatRequest { params: Some(p), stream: true, include_usage: false, body_len: 10 };
    let plan = shard.plan_response(&chat, t0);
    shard.start_response(slot, plan, &chat, true, 1, stats.shard(0));
    slot
}

#[test]
fn interleaved_streams_emit_every_chunk_once_and_in_order() {
    let mut shard = Shard::new(params(0, 1, 1), "m".to_owned());
    let mut stats = Stats::new(1, BOUNDS);
    let slow = start(&mut shard, &mut stats, params(7, 3, 5), 1_000);
    let fast = start(&mut shard, &mut stats, params(8, 4, 2), 1_000);
    let empty = start(&mut shard, &mut stats, params(9, 0, 2), 2_000);
    let mut seen = Vec::new();
    let mut tails = Vec::new();
    while let Some(entry) = shard.pop_emission() {
        match shard.firing(entry) {
            Firing::Chunk { marker, chunk_bytes } => {
                assert_eq!(chunk_bytes, 80);
                seen.push(marker);
                if shard.chunk_sent(entry, stats.shard(0)) {
                    tails.push(entry.slot);
                    assert!(shard.complete(entry.slot, stats.shard(0)));
                }
            }
            other => {
                assert_eq!(other, Firing::Tail);
                tails.push(entry.slot);
                assert!(shard.complete(entry.slot, stats.shard(0)));
            }
        }
    }
    let marker = |sid, seq, t_sched| Marker { sid, seq, t_sched, t_write: 0 };
    assert_eq!(
        seen,
        vec![
            marker(7, 0, 11_000),
            marker(8, 0, 11_000),
            marker(8, 1, 13_000),
            marker(8, 2, 15_000),
            marker(7, 1, 16_000),
            marker(8, 3, 17_000),
            marker(7, 2, 21_000),
        ]
    );
    assert_eq!(tails, vec![empty, fast, slow]);
    assert_eq!(stats.shards[0].active_streams(), 0);
}

#[test]
fn a_finished_inspection_leaves_the_connection_at_the_next_request() {
    let mut shard = Shard::new(params(0, 1, 1), "m".to_owned());
    let slot = shard.take_slot();
    shard.add_connection(slot);
    let second = b"GET /v1/models HTTP/1.1\r\n\r\n";
    shard.received(slot, b"POST /v1/chat/completions HTTP/1.1\r\ncontent-length: 5\r\n\r\nhello");
    shard.received(slot, second);
    assert!(matches!(shard.process(slot), Work::Frame));
    assert!(matches!(shard.framed(slot, Ok(BodyFraming::Length(5))), Work::Dispatch(_)));
    assert_eq!(shard.request_body(slot), Some(&b"hello"[..]));
    let found = Inspected { directive: None, stream: false, include_usage: false, body_len: 5 };
    let chat = shard.finish_inspection(slot, found, Ok(None));
    assert!(matches!(chat, Some(Ok(_))));
    let conn = shard.conns[slot].as_ref().expect("the connection is there");
    assert!(matches!(conn.reader.state, State::Head));
    assert_eq!(conn.rx, second);
    assert!(matches!(shard.process(slot), Work::Frame));
}

#[test]
fn every_api_request_with_a_timestamp_is_sampled_once() {
    let shard = Shard::new(params(0, 1, 1), "m".to_owned());
    let mut stats = Stats::new(1, BOUNDS);
    let head = |method, route| Head {
        method,
        route,
        keep_alive: true,
        expect_continue: false,
        framing: BodyFraming::Length(0),
    };
    let mut dispatch = |head, received_ns| {
        let counters = stats.shard(0);
        let dispatched = shard.dispatch_sampled(head, received_ns, 1_500, counters);
        (dispatched, counters.read_lag.recorded(), counters.requests.get())
    };

    let (dispatched, lags, requests) =
        dispatch(head(Method::Post, Route::ChatCompletions), Some(1_000));
    assert!(matches!(dispatched, Dispatched::Inspect));
    assert_eq!((lags, requests), (vec![(500, 1)], 1));
    let (_, lags, requests) = dispatch(head(Method::Get, Route::Unknown), Some(2_000));
    assert_eq!((lags, requests), (vec![(0, 1), (500, 1)], 2));
    let (_, lags, requests) = dispatch(head(Method::Get, Route::Models), None);
    assert_eq!((lags, requests), (vec![(0, 1), (500, 1)], 3));
    let (dispatched, lags, requests) = dispatch(head(Method::Get, Route::Stats), Some(1_000));
    assert!(matches!(dispatched, Dispatched::Stats));
    assert_eq!((lags, requests), (vec![(0, 1), (500, 1)], 3));
}
