use brisk_bench::histogram::Bounds;
use brisk_bench::loadgen::diagnostics::{merge_into, Diagnostics, Miss, Recorder};
use brisk_bench::loadgen::errors::{io_error_kind, status_kind, ErrorKind, SocketError};
use brisk_bench::loadgen::schedule::SEC_NS;

const BOUNDS: Bounds = Bounds { low: 1, high: 3_600_000_000_000, sigfig: 3 };

#[test]
fn warmup_is_excluded_and_shards_add_up() {
    let origin = 1_000;
    let mut a = Recorder::new(origin, BOUNDS);
    // Interval 0 is warmup.
    a.deadline_missed(origin + 10, 900_000, Miss::LateWakeup);
    a.fresh_send(origin + 10);
    a.request_slip(origin + 10, 0, 7_000_000);
    // Interval 1.
    a.deadline_missed(origin + SEC_NS, 12_000, Miss::LateWakeup);
    a.deadline_missed(origin + SEC_NS + 5, 3_000, Miss::BusyLoop);
    a.fresh_send(origin + SEC_NS);
    a.fresh_ttft(origin + SEC_NS, 250_000);
    a.request_slip(origin + SEC_NS, 100, 8_100);
    let mut b = Recorder::new(origin, BOUNDS);
    // Interval 2, another shard.
    b.deadline_missed(origin + 2 * SEC_NS, 27_000, Miss::BusyLoop);
    b.request_slip(origin + 2 * SEC_NS, 100, 20_100);
    b.request_slip(origin + 2 * SEC_NS, 100, 50);

    let mut merged = a.finish();
    merge_into(&mut merged, &b.finish());
    let d = Diagnostics::summarize(&merged, 1);
    assert_eq!((d.late_wakeups, d.busy_loop_misses), (1, 2));
    assert_eq!(d.deadline_misses(), 3);
    assert_eq!(d.max_deadline_miss_ns, 27_000);
    assert_eq!(d.fresh_conn_sends, 1);
    assert_eq!(d.negative_slips, 1);
    let slip = d.request_slip.expect("two slips after the warmup");
    assert_eq!(slip.count(), 2);
    let slips = slip.recorded();
    assert!((7_990..=8_010).contains(&slips[0].0), "{slips:?}");
    assert!((19_980..=20_020).contains(&slips[1].0), "{slips:?}");
    assert_eq!(d.fresh_conn_ttft.map(|s| s.count()), Some(1));

    let all = Diagnostics::summarize(&merged, 0);
    assert_eq!(all.late_wakeups, 2);
    assert_eq!(all.max_deadline_miss_ns, 900_000);
    assert_eq!(all.request_slip.map(|s| s.count()), Some(3));
    let none = Diagnostics::summarize(&merged, 3);
    assert_eq!(
        (none.late_wakeups, none.busy_loop_misses, none.max_deadline_miss_ns),
        (0, 0, 0)
    );
    assert_eq!((none.fresh_conn_sends, none.negative_slips), (0, 0));
    assert!(none.fresh_conn_ttft.is_none() && none.request_slip.is_none());
}

#[test]
fn socket_errors_have_their_kinds() {
    assert_eq!(io_error_kind(SocketError::InvalidData, true, true), ErrorKind::Tls);
    assert_eq!(io_error_kind(SocketError::InvalidData, false, false), ErrorKind::Io);
    assert_eq!(io_error_kind(SocketError::ConnectionReset, true, true), ErrorKind::Connect);
    for err in [
        SocketError::ConnectionReset,
        SocketError::ConnectionAborted,
        SocketError::BrokenPipe,
    ] {
        assert_eq!(io_error_kind(err, false, true), ErrorKind::Reset);
    }
    assert_eq!(io_error_kind(SocketError::TimedOut, false, false), ErrorKind::Timeout);
    assert_eq!(io_error_kind(SocketError::UnexpectedEof, false, false), ErrorKind::Eof);
    assert_eq!(io_error_kind(SocketError::Other, false, false), ErrorKind::Io);
}

#[test]
fn statuses_have_their_kinds() {
    for (status, name) in [
        (429, "http_429"),
        (503, "http_503"),
        (404, "http_4xx"),
        (500, "http_5xx"),
        (302, "http_other"),
    ] {
        assert_eq!(status_kind(status).as_str(), name);
    }
}

#[test]
fn diagnostics_without_samples_have_none() {
    let mut only_negative = Recorder::new(0, BOUNDS);
    only_negative.request_slip(5, 100, 50);
    only_negative.fresh_send(5);
    let intervals = only_negative.finish();
    let d = Diagnostics::summarize(&intervals, 0);
    assert_eq!((d.negative_slips, d.fresh_conn_sends), (1, 1));
    assert!(d.request_slip.is_none() && d.fresh_conn_ttft.is_none());

    let empty = Recorder::new(0, BOUNDS).finish();
    assert!(intervals.has_room_for(&empty));
    let other = Bounds { sigfig: 2, ..BOUNDS };
    assert!(!intervals.has_room_for(&Recorder::new(0, other).finish()));
}
