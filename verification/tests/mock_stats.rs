use brisk_bench::histogram::Bounds;
use brisk_bench::mock::stats::{ErrorKind, LagSummary, ShardSnapshot, Snapshot, Stats};

const BOUNDS: Bounds = Bounds { low: 1, high: 3_600_000_000_000, sigfig: 3 };

/// The value below or at which the share of the samples lies.
fn quantile(pairs: &[(u64, u64)], share: f64) -> u64 {
    let total: u64 = pairs.iter().map(|(_, n)| n).sum();
    let wanted = (share * total as f64).ceil() as u64;
    let mut seen = 0;
    for (value, n) in pairs {
        seen += n;
        if seen >= wanted {
            return *value;
        }
    }
    0
}

fn snapshot(stats: &Stats) -> Snapshot {
    assert!(stats.is_countable());
    let pairs = stats.merged_read_lag().recorded();
    stats.snapshot(LagSummary {
        p999_ns: quantile(&pairs, 0.999),
        histogram: format!("{pairs:?}"),
    })
}

#[test]
fn snapshot_sums_shards_and_reset_keeps_active_streams() {
    let mut stats = Stats::new(2, BOUNDS);
    stats.shard(0).accepted();
    stats.shard(1).accepted();
    stats.shard(0).request();
    stats.shard(1).stream_started();
    stats.shard(1).stream_started();
    stats.shard(1).stream_finished();
    stats.shard(0).error(ErrorKind::NotFound);

    let snap = snapshot(&stats);
    assert_eq!(snap.accepts, 2);
    assert_eq!(snap.requests, 1);
    assert_eq!(snap.active_streams, 1);
    assert_eq!(snap.errors.not_found, 1);

    stats.reset();
    let snap = snapshot(&stats);
    assert_eq!(snap.accepts, 0);
    assert_eq!(snap.streams_started, 0);
    assert_eq!(snap.errors.not_found, 0);
    assert_eq!(snap.active_streams, 1);

    stats.shard(1).stream_finished();
    stats.shard(0).accepted();
    let snap = snapshot(&stats);
    assert_eq!(snap.active_streams, 0);
    assert_eq!(snap.accepts, 1);
}

#[test]
fn snapshot_lists_shards_and_merges_read_lag() {
    let mut stats = Stats::new(2, BOUNDS);
    stats.shard(0).accepted();
    stats.shard(1).accepted();
    stats.shard(1).accepted();
    stats.shard(1).request();
    stats.shard(1).chunk();
    stats.shard(1).stream_started();
    stats.shard(0).write_blocked();
    for lag in 1..=99 {
        stats.shard(0).read_lag(lag * 1_000);
    }
    stats.shard(1).read_lag(5_000_000);
    stats.shard(1).clock_step();

    let snap = snapshot(&stats);
    assert_eq!(
        snap.shards,
        [
            ShardSnapshot {
                accepts: 1,
                requests: 0,
                chunks: 0,
                active_streams: 0,
                write_blocked: 1,
                read_lag_samples: 99,
            },
            ShardSnapshot {
                accepts: 2,
                requests: 1,
                chunks: 1,
                active_streams: 1,
                write_blocked: 0,
                read_lag_samples: 1,
            },
        ]
    );
    let lag = &snap.read_lag;
    assert_eq!(lag.samples, 100);
    assert!(lag.p50_ns.abs_diff(50_000) <= 50, "{lag:?}");
    assert!(lag.p99_ns.abs_diff(99_000) <= 100, "{lag:?}");
    assert!(lag.max_ns.abs_diff(5_000_000) <= 5_000, "{lag:?}");
    assert_eq!(lag.clock_steps, 1);
    assert_eq!(stats.merged_read_lag().count(), 100);

    stats.reset();
    let snap = snapshot(&stats);
    assert_eq!(snap.read_lag.samples, 0);
    assert_eq!(snap.read_lag.clock_steps, 0);
    assert!(snap.shards.iter().all(|s| s.read_lag_samples == 0));
    assert_eq!(snap.shards[1].active_streams, 1);
}

#[test]
fn every_error_kind_has_its_count() {
    let mut stats = Stats::new(1, BOUNDS);
    let kinds = [
        ErrorKind::BadRequest,
        ErrorKind::HeadTooLarge,
        ErrorKind::BodyTooLarge,
        ErrorKind::BadDirective,
        ErrorKind::NotFound,
        ErrorKind::MethodNotAllowed,
        ErrorKind::Tls,
        ErrorKind::Io,
        ErrorKind::Aborted,
        ErrorKind::Accept,
    ];
    for (i, kind) in kinds.iter().enumerate() {
        for _ in 0..=i {
            stats.shard(0).error(*kind);
        }
    }
    stats.shard(0).connection_closed();
    let snap = snapshot(&stats);
    let e = snap.errors;
    assert_eq!(
        [
            e.bad_request,
            e.head_too_large,
            e.body_too_large,
            e.bad_directive,
            e.not_found,
            e.method_not_allowed,
            e.tls,
            e.io,
            e.aborted,
            e.accept
        ],
        [1, 2, 3, 4, 5, 6, 7, 8, 9, 10]
    );
    assert_eq!(snap.closed, 1);
}

#[test]
fn counting_between_resets_loses_nothing() {
    let mut stats = Stats::new(1, BOUNDS);
    for _ in 0..100 {
        stats.shard(0).stream_started();
        stats.reset();
        stats.shard(0).stream_finished();
    }
    assert_eq!(snapshot(&stats).active_streams, 0);
    stats.reset();
    stats.shard(0).request();
    assert_eq!(snapshot(&stats).requests, 1);
}

#[test]
fn a_snapshot_computes_whole_percentiles_of_all_shards() {
    let mut stats = Stats::new(2, BOUNDS);
    let empty = snapshot(&stats);
    assert_eq!((empty.read_lag.p50_ns, empty.read_lag.p99_ns, empty.read_lag.max_ns), (0, 0, 0));
    for lag in 1..=60 {
        stats.shard((lag % 2) as usize).read_lag(lag);
    }
    stats.shard(1).read_lag(1_000);
    let lag = snapshot(&stats).read_lag;
    assert_eq!((lag.samples, lag.p50_ns, lag.p99_ns, lag.max_ns), (61, 31, 1_000, 1_000));
}

#[test]
fn counting_a_value_no_times_changes_nothing() {
    let mut stats = Stats::new(1, BOUNDS);
    stats.shard(0).read_lag(5);
    stats.shards[0].read_lag.record_n(1_000, 0);
    let lag = snapshot(&stats).read_lag;
    assert_eq!((lag.samples, lag.p50_ns, lag.p99_ns, lag.max_ns), (1, 5, 5, 5));
    stats.shards[0].read_lag.record_n(1_000, 2);
    let lag = snapshot(&stats).read_lag;
    assert_eq!((lag.samples, lag.p50_ns, lag.p99_ns, lag.max_ns), (3, 1_000, 1_000, 1_000));
}
