use brisk_bench::chars;
use brisk_bench::histogram::{Bounds, Latencies};
use brisk_bench::http::{has_token, wants_close, RawHeader};
use brisk_bench::loadgen::censor::{count_of, overdue, Censored, LowerBound, Metric};
use brisk_bench::loadgen::flight::{Mode, Request};
use brisk_bench::loadgen::schedule::RateSegment;
use brisk_bench::loadgen::tracker::{RampSpec, RampTracker};
use brisk_bench::mock::inspect::window;
use brisk_bench::mock::stats::{LagSummary, Stats};
use brisk_bench::sorted::{distinct_strings, insert, join, place, position, Place};
use brisk_bench::text;
use brisk_bench::time::{earlier, later, saturating_product};
use brisk_bench::wire::{append_chunk, append_last_chunk};

const BOUNDS: Bounds = Bounds { low: 1, high: 3_600_000_000_000, sigfig: 3 };

#[test]
fn numbers_are_written_in_decimal_and_hex() {
    for v in [0, 9, 10, 4_711, u64::MAX] {
        let mut out = b">".to_vec();
        text::append_decimal(&mut out, v);
        assert_eq!(out, format!(">{v}").into_bytes());
        let mut out = String::from(">");
        text::push_decimal(&mut out, v);
        assert_eq!(out, format!(">{v}"));
    }
    for v in [0, 9, 10, 15, 16, 0xdead_beef, usize::MAX] {
        let mut out = Vec::new();
        text::append_hex(&mut out, v);
        assert_eq!(out, format!("{v:x}").into_bytes());
    }
}

#[test]
fn bytes_are_trimmed_and_compared() {
    assert_eq!(text::trimmed(b" \t a b\r\n"), b"a b");
    assert_eq!(text::trimmed_start(b"  a "), b"a ");
    assert_eq!(text::trimmed_end(b"  a "), b"  a");
    assert_eq!(text::trimmed(b"   "), b"");
    assert!(text::equals_ignoring_case(b"Keep-Alive", b"keep-alivE"));
    assert!(!text::equals_ignoring_case(b"close", b"closed"));
    assert_eq!((text::lower_byte(b'Z'), text::lower_byte(b'['), text::lower_byte(b'a')), (b'z', b'[', b'a'));
    assert!(text::starts_with(b"abc", b"ab") && !text::starts_with(b"a", b"ab"));
    assert!(text::ends_with(b"abc", b"bc") && !text::ends_with(b"c", b"bc"));
}

#[test]
fn characters_are_read_and_written() {
    let letters = chars::chars_of("aß c");
    assert_eq!(letters, ['a', 'ß', ' ', 'c']);
    assert_eq!(chars::string_of(&letters), "aß c");
    assert_eq!(chars::trimmed(&['\u{a0}', 'x', '\n']), ['x']);
    assert_eq!(chars::string_of(&chars::lowercase(&chars::chars_of("AbÄ"))), "abÄ");
    assert_eq!(chars::position_of(&letters, 'c'), Some(3));
    assert_eq!(chars::position_of(&letters, 'z'), None);
    assert_eq!(chars::last_position_of(&chars::chars_of("a:b:c"), ':'), Some(3));
    assert!(chars::is_unprintable('\u{7f}') && !chars::is_unprintable('x'));
    let parse = |s: &str, max: u64| chars::parse_unsigned(&chars::chars_of(s), max);
    assert_eq!(parse("65535", 65_535), Some(65_535));
    assert_eq!(parse("65536", 65_535), None);
    assert_eq!(parse("18446744073709551615", u64::MAX), Some(u64::MAX));
    assert_eq!(parse("18446744073709551616", u64::MAX), None);
    assert_eq!((parse("", 9), parse("1x", 99), parse("-1", 9)), (None, None, None));
    assert_eq!(parse("007", 9), Some(7));
}

#[test]
fn strings_are_sorted_and_listed_once() {
    let list = |items: &[&str]| items.iter().map(|s| s.to_string()).collect::<Vec<String>>();
    let mut expected = list(&["b", "a", "ab", "b", "", "a"]);
    let sorted = distinct_strings(&expected);
    expected.sort();
    expected.dedup();
    assert_eq!(sorted, expected);
    assert_eq!(position(&sorted, "aa"), (2, false));
    assert_eq!(position(&sorted, "ab"), (2, true));
    let mut more = sorted;
    insert(&mut more, &"aa".to_string());
    assert_eq!(more, list(&["", "a", "aa", "ab", "b"]));
    assert_eq!(join(&more, ", "), ", a, aa, ab, b");
    assert!(matches!(place("a", "b"), Place::Before));
    assert!(matches!(place("ab", "a"), Place::Behind));
    assert!(matches!(place("a", "a"), Place::Same));
}

#[test]
fn connection_headers_ask_for_a_close() {
    let header = |name: &str, value: &str| RawHeader {
        name: name.as_bytes().to_vec(),
        value: value.as_bytes().to_vec(),
    };
    assert!(has_token(b"keep-alive, Close", b"close"));
    assert!(!has_token(b"closed", b"close"));
    assert!(wants_close(&vec![header("Connection", "x ,close")]));
    assert!(!wants_close(&vec![header("Connection", "keep-alive"), header("x", "close")]));
}

#[test]
fn times_stop_at_their_end() {
    assert_eq!(saturating_product(3, 7), 21);
    assert_eq!(saturating_product(u64::MAX, 2), u64::MAX);
    assert_eq!(saturating_product(1 << 32, 1 << 32), u64::MAX);
    assert_eq!((earlier(3, 7), later(3, 7)), (3, 7));
}

#[test]
fn chunks_are_framed() {
    let mut out = Vec::new();
    append_chunk(&mut out, b"0123456789abcdef!");
    append_last_chunk(&mut out);
    assert_eq!(out, b"11\r\n0123456789abcdef!\r\n0\r\n\r\n");
}

#[test]
fn latencies_are_bucketed_and_clamped() {
    assert!(BOUNDS.is_valid());
    assert!(!Bounds { low: 0, ..BOUNDS }.is_valid());
    assert!(!Bounds { high: 1, ..BOUNDS }.is_valid());
    assert!(!Bounds { sigfig: 6, ..BOUNDS }.is_valid());
    let mut latencies = Latencies::new(BOUNDS);
    latencies.record(1_000);
    latencies.record_n(1_000_000, 3);
    latencies.record(u64::MAX);
    assert_eq!(latencies.count(), 5);
    let recorded = latencies.recorded();
    assert_eq!(recorded.len(), 3);
    assert_eq!((recorded[0].1, recorded[1].1, recorded[2].1), (1, 3, 1));
    assert!((1_000_000..=1_001_000).contains(&recorded[1].0), "{recorded:?}");
    assert!(recorded[2].0 < 2 * BOUNDS.high, "{recorded:?}");
}

fn request(markers: u32) -> Request {
    Request {
        sched_ns: 1_000,
        sent_ns: 1_000,
        sid: 1,
        chunks: 5,
        step: 0,
        retried: false,
        fresh: false,
        markers,
        last_marker_sched: 1_300,
    }
}

#[test]
fn overdue_requests_leave_lower_bounds() {
    let stream = Mode::Stream { ttft_ns: 100, interval_ns: 200 };
    let bounds = overdue(stream, &request(0), 1_600);
    assert!(bounds.iter().any(|b| b.metric == Metric::Ttft), "{bounds:?}");
    assert_eq!(count_of(&bounds), bounds.iter().map(|b| b.count).sum::<u64>());
    assert!(overdue(stream, &request(0), 1_050).is_empty());

    let mut censored = Censored::new(BOUNDS);
    let bounds = vec![
        LowerBound { metric: Metric::Ttft, value_ns: 500, count: 1 },
        LowerBound { metric: Metric::ChunkLatency, value_ns: 90, count: 4 },
    ];
    censored.record_all(7, &bounds);
    assert_eq!(censored.recorded, 5);
    let (samples, saturated) = censored.settle(Some(5));
    assert!(saturated.is_empty());
    assert_eq!(samples.len(), 2);
    assert!(samples.iter().all(|(index, _, _)| *index == 5));
    assert_eq!(samples.iter().map(|(_, _, l)| l.count()).sum::<u64>(), 5);
}

#[test]
fn steps_are_tracked_until_they_are_reported() {
    let segment = |step: u32| RateSegment {
        start_ns: u64::from(step) * 100,
        end_ns: u64::from(step) * 100 + 100,
        rate: 0,
        step,
    };
    let spec = RampSpec {
        steps: vec![segment(1), segment(2)],
        judge_delay_ns: 50,
        saturation_lag_ns: 10,
        stop_p99_ns: 1_000,
    };
    let mut tracker = RampTracker::new(spec, BOUNDS);
    assert_eq!(tracker.next_deadline(), Some(250));
    assert_eq!(tracker.outstanding(1), 0);
    tracker.on_start(1, 3);
    tracker.on_start(1, 11);
    assert_eq!(tracker.outstanding(1), 2);
    tracker.note_lag(1, 20);
    tracker.on_done(1, Some(400));
    tracker.on_done(1, None);
    assert_eq!(tracker.outstanding(1), 0);
    assert!(!tracker.reported(1));
    let acc = tracker.take(1);
    assert_eq!((acc.requests, acc.errors, acc.max_emit_lag_ns), (1, 1, 20));
}

#[test]
fn the_largest_bounds_still_merge() {
    assert!(!Bounds { high: 0x8000_0000_0000_0000, ..BOUNDS }.is_valid());
    assert!(!Bounds { high: u64::MAX, ..BOUNDS }.is_valid());
    let bounds = Bounds { high: 0x7fff_ffff_ffff_ffff, ..BOUNDS };
    assert!(bounds.is_valid());
    let mut stats = Stats::new(2, bounds);
    stats.shard(0).read_lag(u64::MAX);
    stats.shard(1).read_lag(u64::MAX);
    let merged = stats.merged_read_lag();
    assert_eq!(merged.recorded(), vec![(0x7fff_ffff_ffff_ffff, 2)]);
    let lag = LagSummary { p999_ns: 0, histogram: String::new() };
    assert_eq!(stats.snapshot(lag).read_lag.max_ns, 0x7fff_ffff_ffff_ffff);
}

#[test]
fn a_window_ends_with_the_last_needle_that_starts_in_it() {
    assert_eq!(window(b"abcdef", 1, 3, 2), b"bcd");
    assert_eq!(window(b"abcdef", 1, 3, 9), b"bcdef");
    assert_eq!(window(b"abcdef", 2, 2, 1), b"");
    assert_eq!(window(b"abcdef", 4, 2, 1), b"");
}
