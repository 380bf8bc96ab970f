use brisk_bench::loadgen::report::{
    connections_line, criterion_line, error_counts, heading_line, is_tellable, outcome_line, remarks,
    selfcheck_line, sends_line, span_note, validity_lines, Heading, SendFigures, SlipFigures,
};
use brisk_bench::loadgen::shard::Counters;
use brisk_bench::loadgen::validity::{Interval, SelfcheckVerdict};

fn interval(index: u64, requests: u64, chunks: u64, errors: &[(&str, u64)]) -> Interval {
    Interval {
        index,
        duration_ns: 1,
        concurrency_deviates: false,
        chunks,
        requests,
        errors: errors.iter().map(|(kind, n)| (kind.to_string(), *n)).collect(),
        negative: 0,
    }
}

#[test]
fn errors_add_up_by_kind_in_order() {
    let intervals = vec![
        interval(0, 100, 9, &[("zzz", 7)]),
        interval(1, 10, 30, &[("timeout", 2), ("eof", 1)]),
        interval(2, 20, 60, &[("eof", 4), ("reset", 3)]),
    ];
    let counts = error_counts(&intervals, 1);
    assert_eq!(counts.kinds, ["eof", "reset", "timeout"]);
    assert_eq!(counts.counts, [5, 3, 2]);
    assert_eq!(counts.describe(), "eof=5 reset=3 timeout=2");
    assert_eq!(
        outcome_line(&intervals, 1),
        "after warmup: requests 30, chunks 90, errors eof=5 reset=3 timeout=2"
    );
    assert_eq!(
        outcome_line(&intervals, 3),
        "after warmup: requests 0, chunks 0, errors none"
    );
}

#[test]
fn connections_are_summed_up_in_a_line() {
    let c = Counters {
        connections_opened: 1,
        reused_sends: 2,
        stale_retries: 3,
        idle_closed: 4,
        open_at_end: 5,
        rx_batches_without_timestamp: 6,
        rx_batches: 7,
        ..Counters::default()
    };
    assert_eq!(
        connections_line(&c),
        "connections opened 1, reused sends 2, stale retries 3, idle closed by peer 4, open at \
         end 5, receives without kernel timestamp 6 of 7"
    );
}

#[test]
fn late_and_fresh_sends_are_told() {
    let mut figures = SendFigures {
        fresh_sends: 4,
        fresh_ttft: None,
        late_wakeups: 2,
        busy_loop_misses: 1,
        worst_us: "27.1".into(),
    };
    assert_eq!(
        sends_line(&figures),
        "after warmup: sends on new connections 4; sends reached after their deadline 3 (2 late \
         wake-ups, 1 behind other events, worst by 27.1 us)"
    );
    figures.fresh_ttft = Some(("10.0".into(), "20.0".into()));
    assert!(sends_line(&figures)
        .contains("new connections 4 (their TTFT p50 10.0 us, p99 20.0 us); sends"));
}

#[test]
fn remarks_are_made_as_far_as_they_apply() {
    assert!(remarks(None, 0, &Counters::default()).is_empty());
    let slip = SlipFigures {
        count: 19,
        p50_us: "1.0".into(),
        p99_us: "2.0".into(),
        p999_us: "3.0".into(),
        max_us: "4.0".into(),
    };
    let c = Counters { censored_requests: 3, censored_samples: 6, ..Counters::default() };
    assert_eq!(
        remarks(Some(&slip), 2, &c),
        [
            "request slip (send to the mock's receipt, pooled connections): count 19, p50 1.0 \
             us, p99 2.0 us, p99.9 3.0 us, max 4.0 us",
            "note: 2 request slip(s) ended before they started: the load generator and the mock \
             do not share a clock",
            "censored: 3 timed-out or unfinished request(s) recorded 6 latency lower bound(s)",
        ]
    );
}

#[test]
fn headings_name_the_run() {
    let mut heading = Heading {
        tool: "brisk-loadgen".into(),
        scenario: "stream".into(),
        label: "direct-P".into(),
        pair_id: None,
        target: "http://h".into(),
        tls: false,
    };
    assert_eq!(
        heading_line(&heading),
        "brisk-loadgen stream  label=direct-P  target=http://h"
    );
    heading.pair_id = Some("r1".into());
    heading.tls = true;
    assert_eq!(
        heading_line(&heading),
        "brisk-loadgen stream  label=direct-P  pair=r1  target=http://h (TLS)"
    );
    assert_eq!(validity_lines(true, &Vec::new()), ["validity: VALID"]);
    assert_eq!(
        validity_lines(false, &vec!["a".to_string(), "b".to_string()]),
        ["validity: INVALID", "  - a", "  - b"]
    );
}

#[test]
fn selfcheck_verdicts_are_listed() {
    let verdict = SelfcheckVerdict { pass: false, criteria: Vec::new() };
    assert_eq!(
        selfcheck_line(&verdict, 1000, 2000),
        "selfcheck at 2000 streams (twice the target of 1000): FAIL"
    );
    assert_eq!(
        criterion_line(true, "run_valid", "valid", "valid"),
        format!("  [x] {:<22} {} (limit {})", "run_valid", "valid", "valid")
    );
    assert_eq!(
        criterion_line(false, "concurrency_deviation_x", "1%", "5%"),
        format!("  [ ] {:<22} {} (limit {})", "concurrency_deviation_x", "1%", "5%")
    );
}

#[test]
fn odd_spans_are_noted() {
    assert_eq!(span_note(0, 0), None);
    assert_eq!(
        span_note(1, 2).unwrap(),
        "note: 1 span(s) ended before they started (clock conversion) and 2 exceeded the \
         histogram range"
    );
}

#[test]
fn outcomes_that_do_not_add_up_are_told() {
    let two = |chunks: u64| {
        vec![interval(0, 1, u64::MAX, &[]), interval(1, 1, chunks, &[("reset", u64::MAX - 1)])]
    };
    assert!(is_tellable(&two(5), 1));
    assert!(!is_tellable(&two(1), 0));
    assert!(!is_tellable(&[interval(0, 2, 0, &[("reset", u64::MAX - 1)])], 0));
}
