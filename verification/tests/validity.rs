use brisk_bench::loadgen::censor::Metric;
use brisk_bench::loadgen::schedule::SEC_NS;
use brisk_bench::loadgen::shard::Counters;
use brisk_bench::loadgen::validity::{
    check_load, check_slip, chunks_deviate, evaluate, is_countable, negative_span_denominator,
    selfcheck, Evidence, Interval, LoadCheck, MetricSummary, Misses, Outcomes, PlannedChunks,
    RawFigures, Reason, ReasonFigures, SelfcheckEvidence, SelfcheckVerdict, SlipSummary, Validity,
};

const NO_MISSES: Misses =
    Misses { late_wakeups: 0, busy_loop_misses: 0, max_deadline_miss_ns: 0 };

/// An interval as it was recorded.
struct Recorded {
    interval: Interval,
    /// Mean concurrency.
    mean: f64,
}

fn interval(index: u64, concurrency: f64, chunks: u64, requests: u64) -> Recorded {
    Recorded {
        interval: Interval {
            index,
            duration_ns: SEC_NS,
            concurrency_deviates: false,
            chunks,
            requests,
            errors: Vec::new(),
            negative: 0,
        },
        mean: concurrency,
    }
}

/// The deviation from the plan, relative to it.
fn deviation(actual: f64, planned: f64) -> f64 {
    if planned == 0.0 {
        if actual == 0.0 {
            0.0
        } else {
            f64::INFINITY
        }
    } else {
        (actual / planned - 1.0).abs()
    }
}

fn copy(i: &Interval) -> Interval {
    Interval {
        index: i.index,
        duration_ns: i.duration_ns,
        concurrency_deviates: i.concurrency_deviates,
        chunks: i.chunks,
        requests: i.requests,
        errors: i.errors.clone(),
        negative: i.negative,
    }
}

/// The intervals as the rules read them, for a planned concurrency.
fn read(recorded: &[Recorded], planned: f64) -> Vec<Interval> {
    recorded
        .iter()
        .map(|r| Interval {
            concurrency_deviates: deviation(r.mean, planned) > 0.05,
            ..copy(&r.interval)
        })
        .collect()
}

fn plain(n: u64, concurrency: f64, chunks: u64, requests: u64) -> Vec<Interval> {
    let recorded: Vec<Recorded> =
        (0..n).map(|i| interval(i, concurrency, chunks, requests)).collect();
    read(&recorded, concurrency)
}

fn planned(n: u64, chunks: u64) -> Vec<PlannedChunks> {
    (0..n).map(|index| PlannedChunks { index, chunks }).collect()
}

fn summary_tail(metric: Metric, p99_ns: u64, far_tail_ns: u64) -> MetricSummary {
    MetricSummary { metric, count: 1000, p99_ns, p999_ns: far_tail_ns }
}

fn summary_with(metric: Metric, p99_ns: u64) -> MetricSummary {
    summary_tail(metric, p99_ns, p99_ns)
}

/// Mock write lag and emit lag just within their limits.
fn good_summary() -> Vec<MetricSummary> {
    vec![
        summary_with(Metric::MockWriteLag, 9_999),
        summary_tail(Metric::EmitLag, 9_999, 999_999),
    ]
}

/// The summary with another one in place of that of its metric.
fn replaced(summary: Vec<MetricSummary>, with: MetricSummary) -> Vec<MetricSummary> {
    let mut out: Vec<MetricSummary> =
        summary.into_iter().filter(|s| s.metric != with.metric).collect();
    out.push(with);
    out
}

fn evidence(intervals: Vec<Interval>, warmup: u64, summary: Vec<MetricSummary>) -> Evidence {
    Evidence {
        intervals,
        warmup_intervals: warmup,
        summary,
        clock_steps: 0,
        load: None,
        counters: Counters::default(),
        misses: NO_MISSES,
        markers_expected: true,
        mock_lag_limit_ns: 10_000,
        timestamps_required: true,
    }
}

fn us(ns: u64) -> String {
    format!("{:.1}", ns as f64 / 1e3)
}

/// The reasons as they are printed.
fn reasons(v: &Validity) -> Vec<String> {
    v.reasons
        .iter()
        .map(|reason| {
            let (value, limit, worst) = match reason {
                Reason::MockWriteLag { mock_p99_ns, mock_limit_ns } => {
                    (*mock_p99_ns, *mock_limit_ns, 0)
                }
                Reason::EmitLag { far_tail, lag_ns, misses, .. } => (
                    *lag_ns,
                    if *far_tail { 1_000_000 } else { 10_000 },
                    misses.max_deadline_miss_ns,
                ),
                Reason::Slip { slip_p99_ns, slip_limit_ns, .. } => (*slip_p99_ns, *slip_limit_ns, 0),
                _ => (0, 0, 0),
            };
            reason.message(&ReasonFigures {
                value_us: us(value),
                limit_us: us(limit),
                worst_us: us(worst),
            })
        })
        .collect()
}

#[test]
fn load_check_counts_deviating_intervals_after_warmup() {
    let mut intervals: Vec<Recorded> = (0..202).map(|i| interval(i, 1000.0, 30_000, 100)).collect();
    let plan = planned(202, 30_000);
    // Warmup chaos is ignored.
    intervals[0].mean = 5.0;
    // One concurrency and one chunk-rate deviation after the warmup.
    intervals[10].mean = 1060.0;
    intervals[11].interval.chunks = 28_000;
    // Both in one interval count once.
    intervals[12].mean = 900.0;
    intervals[12].interval.chunks = 0;
    // The trailing partial interval is not checked.
    intervals[201].interval.duration_ns = SEC_NS / 2;
    intervals[201].mean = 0.0;

    let check = check_load(&read(&intervals, 1000.0), &plan, 2);
    assert_eq!(check.checked_intervals, 199);
    assert_eq!(check.concurrency_deviating, 2);
    assert_eq!(check.chunk_rate_deviating, 2);
    assert_eq!(check.deviating, 3);
    // 3 of 199 is above 1%.
    assert!(check.too_many_deviating());

    intervals[12] = interval(12, 1000.0, 30_000, 100);
    let check = check_load(&read(&intervals, 1000.0), &plan, 2);
    // 2 of 199 is above 1% as well; 1 of 199 would not be.
    assert!(check.too_many_deviating());
    intervals[11] = interval(11, 1000.0, 30_000, 100);
    let check = check_load(&read(&intervals, 1000.0), &plan, 2);
    assert_eq!(check.deviating, 1);
    assert!(!check.too_many_deviating());
}

#[test]
fn deviation_handles_zero_plans() {
    assert!(!chunks_deviate(0, 0));
    assert!(chunks_deviate(1, 0));
    assert!(!chunks_deviate(95, 100));
    assert!(chunks_deviate(94, 100));
    assert!(!chunks_deviate(105, 100));
    assert!(chunks_deviate(106, 100));
}

#[test]
fn evaluate_applies_every_rule() {
    let base = || plain(20, 10.0, 300, 1000);
    let v = evaluate(&evidence(base(), 5, good_summary()));
    assert!(v.valid && v.reasons.is_empty(), "{v:?}");

    let slow = replaced(good_summary(), summary_with(Metric::MockWriteLag, 10_000));
    let v = evaluate(&Evidence { clock_steps: 2, ..evidence(base(), 5, slow) });
    assert!(!v.valid);
    assert_eq!(v.reasons.len(), 2, "{v:?}");

    // 16 failures in 15_016 is above 0.1%; stale retries do not count.
    let failing = |resets: u64, stale: u64| {
        let mut intervals = base();
        intervals[7].errors.push(("reset".into(), resets));
        intervals[8].errors.push(("stale_retry".into(), stale));
        evaluate(&evidence(intervals, 5, good_summary()))
    };
    let v = failing(16, 15);
    assert_eq!(v.reasons.len(), 1, "{v:?}");
    assert!(reasons(&v)[0].contains("16 of 15016"), "{v:?}");
    assert!(failing(15, 15).valid);
    // Stale retries beyond 0.1% of the 15_000 requests are no longer
    // keep-alive races.
    let v = failing(15, 16);
    assert_eq!(v.reasons.len(), 1, "{v:?}");
    assert!(
        reasons(&v)[0].contains("16 stale keep-alive retries"),
        "{v:?}"
    );

    let v = evaluate(&evidence(base(), 20, good_summary()));
    assert!(!v.valid);
    assert!(v.reasons.contains(&Reason::NoIntervals), "{v:?}");
}

#[test]
fn a_run_off_its_load_or_without_requests_is_invalid() {
    let load = LoadCheck {
        checked_intervals: 99,
        concurrency_deviating: 1,
        chunk_rate_deviating: 0,
        deviating: 1,
    };
    let v = evaluate(&Evidence {
        load: Some(load),
        ..evidence(plain(4, 1.0, 0, 100), 1, good_summary())
    });
    assert_eq!(v.reasons, [Reason::Load { load }]);
    let v = evaluate(&evidence(plain(4, 1.0, 0, 0), 1, good_summary()));
    assert!(v.reasons.contains(&Reason::NoRequests), "{v:?}");
}

#[test]
fn mock_write_lag_rule_follows_the_configured_limit() {
    let judge = |mock_p99_ns, mock_lag_limit_ns| {
        let summary = replaced(good_summary(), summary_with(Metric::MockWriteLag, mock_p99_ns));
        evaluate(&Evidence {
            mock_lag_limit_ns,
            ..evidence(plain(4, 1.0, 0, 100), 1, summary)
        })
    };
    // 12 us fails the default 10 us but passes a 25 us limit.
    assert_eq!(
        reasons(&judge(12_000, 10_000)),
        ["mock write lag p99 12.0 us is not below 10.0 us"]
    );
    assert!(judge(12_000, 25_000).valid);
    assert!(judge(24_999, 25_000).valid);
    assert_eq!(
        reasons(&judge(25_000, 25_000)),
        ["mock write lag p99 25.0 us is not below 25.0 us"]
    );
    // A stricter limit applies as well.
    assert_eq!(
        reasons(&judge(6_000, 5_000)),
        ["mock write lag p99 6.0 us is not below 5.0 us"]
    );
    // The emit lag limit stays at 10 us whatever the mock limit.
    let summary = replaced(good_summary(), summary_tail(Metric::EmitLag, 12_000, 12_000));
    let v = evaluate(&Evidence {
        mock_lag_limit_ns: 25_000,
        ..evidence(plain(4, 1.0, 0, 100), 1, summary)
    });
    assert_eq!(v.reasons.len(), 1, "{v:?}");
    assert!(reasons(&v)[0].starts_with("emit lag p99 12.0 us"), "{v:?}");
}

#[test]
fn missing_marker_evidence_invalidates_marked_scenarios_only() {
    let summary = || vec![summary_with(Metric::EmitLag, 1_000)];
    let v = evaluate(&evidence(plain(4, 1.0, 0, 100), 1, summary()));
    assert_eq!(
        reasons(&v),
        ["no mock write lag samples after the warmup"],
        "{v:?}"
    );
    assert!(
        evaluate(&Evidence {
            markers_expected: false,
            ..evidence(plain(4, 1.0, 0, 100), 1, summary())
        })
        .valid
    );
}

#[test]
fn a_lagging_load_generator_invalidates_the_run() {
    let judge = |p99_ns, far_tail_ns, misses| {
        let summary = replaced(good_summary(), summary_tail(Metric::EmitLag, p99_ns, far_tail_ns));
        evaluate(&Evidence { misses, ..evidence(plain(4, 1.0, 0, 100), 1, summary) })
    };
    assert!(judge(9_999, 999_999, NO_MISSES).valid);
    let v = judge(10_000, 20_000, NO_MISSES);
    assert_eq!(
        reasons(&v),
        [
            "emit lag p99 10.0 us over 1000 sends is not below 10.0 us: the load generator \
             fell behind its schedule; no send missed its spin window, so the thread lost \
             the CPU while spinning or sending"
        ],
        "{v:?}"
    );
    let late = Misses { late_wakeups: 9, busy_loop_misses: 3, max_deadline_miss_ns: 27_140 };
    let v = judge(5_000, 1_000_000, late);
    assert_eq!(
        reasons(&v),
        [
            "emit lag p99.9 1000.0 us over 1000 sends is not below 1000.0 us: the load \
             generator fell behind its schedule; 12 of 1000 sends were reached after their \
             deadline (9 late wake-ups, 3 behind other events, worst by 27.1 us); a longer \
             --spin-us absorbs late wake-ups"
        ],
        "{v:?}"
    );
}

#[test]
fn request_slip_rule_needs_evidence_below_the_limit() {
    let slip = |p99_ns| Some(SlipSummary { count: 5000, p99_ns });
    let judge = |slip: Option<SlipSummary>| {
        let mut v = Validity::new();
        check_slip(&mut v, slip, 200_000);
        v
    };
    assert!(judge(slip(199_999)).valid);
    assert_eq!(
        reasons(&judge(slip(3_125_000))),
        [
            "request slip p99 3125.0 us over 5000 requests is not below 200.0 us: requests \
             wait at the mock before it reads them, and TTFT measures that wait"
        ]
    );
    assert_eq!(
        reasons(&judge(None)),
        ["no request slip samples after the warmup"]
    );
}

#[test]
fn receive_timestamp_and_clock_conversion_rules() {
    let judge = |negative: [u64; 4], counters: Counters, timestamps_required: bool| {
        let mut intervals = plain(4, 1.0, 0, 100);
        for (i, n) in negative.iter().enumerate() {
            intervals[i].negative = *n;
        }
        evaluate(&Evidence {
            counters,
            timestamps_required,
            ..evidence(intervals, 1, good_summary())
        })
    };
    let mut counters = Counters::default();
    counters.rx_batches = 500;
    counters.rx_batches_without_timestamp = 1;
    // Runs require kernel receive timestamps on Linux only.
    assert!(judge([0; 4], counters, false).valid);
    let v = judge([0; 4], counters, true);
    assert!(!v.valid);
    assert!(reasons(&v)[0].starts_with("1 of 500 receives"), "{v:?}");

    // 2000 samples: two negative spans are 0.1%, three are too many.
    let none = Counters::default();
    assert!(judge([0, 0, 2, 0], none, true).valid);
    let v = judge([0, 0, 2, 1], none, true);
    assert_eq!(v.reasons.len(), 1, "{v:?}");
    assert!(reasons(&v)[0].starts_with("3 of 2000 spans"), "{v:?}");
    // Negative spans of the warmup do not count.
    assert!(judge([50, 0, 2, 0], none, true).valid);
}

#[test]
fn negative_span_rule_denominator_excludes_ttft_reused() {
    // `TtftReused` duplicates a subset of `Ttft`'s samples; the rule's
    // denominator must stay the same, and so must the judged, whether or not
    // a `TtftReused` summary is present.
    let judge = |summary: Vec<MetricSummary>| {
        let mut intervals = plain(2, 1.0, 0, 100);
        intervals[0].negative = 2;
        evaluate(&Evidence { markers_expected: false, ..evidence(intervals, 0, summary) })
    };

    // 2 of the 1000 `Ttft` samples is 0.2%, above the 0.1% limit.
    let without_reused = || vec![summary_with(Metric::Ttft, 500)];
    let v = judge(without_reused());
    assert!(!v.valid, "{v:?}");
    assert!(reasons(&v)[0].starts_with("2 of 1000 spans"), "{v:?}");

    // Counting `ttft_reused`'s samples too would dilute 2 of 1000 to 2 of
    // 2000 (0.1%, at the limit) or lower still with more reused samples; the
    // denominator and judged must not move.
    let with_reused = || replaced(without_reused(), summary_with(Metric::TtftReused, 500));
    let reused = judge(with_reused());
    assert_eq!((reused.valid, &reused.reasons), (v.valid, &v.reasons));
    assert_eq!(negative_span_denominator(&with_reused()), 1000);
}

#[test]
fn outcomes_split_failures_and_stale_retries() {
    let mut intervals = plain(3, 1.0, 0, 1000);
    intervals[0].errors.push(("reset".into(), 100));
    intervals[1].errors.push(("timeout".into(), 2));
    intervals[2].errors.push(("http_503".into(), 1));
    intervals[2].errors.push(("stale_retry".into(), 4));
    let outcomes = Outcomes::of(&intervals, 1);
    assert_eq!(
        outcomes,
        Outcomes {
            requests: 2000,
            failures: 3,
            stale_retries: 4
        }
    );
}

fn slip_of(p99_ns: u64) -> Option<SlipSummary> {
    Some(SlipSummary { count: 1000, p99_ns })
}

fn names(judged: &SelfcheckVerdict) -> Vec<&'static str> {
    judged.criteria.iter().map(|c| c.kind.name()).collect()
}

#[test]
fn selfcheck_needs_all_criteria() {
    let load = check_load(&plain(10, 100.0, 3000, 30), &planned(10, 3000), 0);
    let summary = |emit_ns| {
        vec![
            summary_with(Metric::EmitLag, emit_ns),
            summary_with(Metric::MockWriteLag, 6_000),
        ]
    };
    let judge = |emit_ns, load: &LoadCheck, nominal_within, slip| {
        selfcheck(&SelfcheckEvidence {
            summary: summary(emit_ns),
            checked_intervals: load.checked_intervals,
            concurrency_within: load.concurrency_deviating == 0,
            nominal_within,
            slip,
            slip_limit_ns: 200_000,
            mock_lag_limit_ns: 10_000,
            valid: true,
        })
    };
    let healthy = slip_of(80_000);
    let judged = judge(4_000, &load, true, healthy);
    assert!(judged.pass, "{judged:?}");
    assert_eq!(
        names(&judged),
        [
            "emit_lag_p99",
            "mock_write_lag_p99",
            "request_slip_p99",
            "concurrency_deviation",
            "nominal_concurrency",
            "run_valid"
        ]
    );

    // A saturated mock: write lag in bounds, TTFT p99 3.1 ms.
    let judged = judge(4_000, &load, true, slip_of(3_125_000));
    assert!(!judged.pass);
    assert_eq!(judged.criteria[2].observed_ns, Some(3_125_000));
    assert_eq!(judged.criteria[2].limit_ns, Some(200_000));
    assert!(!judged.criteria[2].pass);
    assert!(!judge(4_000, &load, true, None).criteria[2].pass);

    let judged = judge(12_000, &load, true, healthy);
    assert!(!judged.pass);
    assert!(!judged.criteria[0].pass);

    let mut shaky: Vec<Recorded> = (0..10).map(|i| interval(i, 100.0, 3000, 30)).collect();
    shaky[3].mean = 94.0;
    let load = check_load(&read(&shaky, 100.0), &planned(10, 3000), 0);
    let judged = judge(4_000, &load, true, healthy);
    assert!(!judged.criteria[3].pass);
    assert!(judged.criteria[4].pass);
    assert!(!judged.pass);

    // Schedule and achieved load agree in every interval but both sit 6%
    // below the target: the stream model is off.
    let load = check_load(&plain(10, 94.0, 3000, 30), &planned(10, 3000), 0);
    let judged = judge(4_000, &load, deviation(94.0, 100.0) <= 0.05, healthy);
    assert!(judged.criteria[3].pass);
    assert!(!judged.criteria[4].pass, "{judged:?}");
    assert!(!judged.pass);
}

#[test]
fn selfcheck_mock_write_lag_criterion_follows_the_configured_limit() {
    let judge = |mock_lag_limit_ns| {
        selfcheck(&SelfcheckEvidence {
            summary: vec![
                summary_with(Metric::EmitLag, 4_000),
                summary_with(Metric::MockWriteLag, 14_000),
            ],
            checked_intervals: 10,
            concurrency_within: true,
            nominal_within: true,
            slip: slip_of(80_000),
            slip_limit_ns: 200_000,
            mock_lag_limit_ns,
            valid: true,
        })
    };

    let judged = judge(25_000);
    assert!(judged.pass, "{judged:?}");
    let mock = judged.criteria[1];
    assert_eq!(mock.kind.name(), "mock_write_lag_p99");
    assert_eq!(mock.observed_ns, Some(14_000));
    assert_eq!(mock.limit_ns, Some(25_000));
    assert!(mock.pass);
    // The emit lag criterion keeps its own bound.
    assert_eq!(judged.criteria[0].limit_ns, Some(10_000));

    let judged = judge(10_000);
    assert!(!judged.pass);
    assert_eq!(judged.criteria[1].limit_ns, Some(10_000));
    assert!(!judged.criteria[1].pass);

    let judged = judge(12_500);
    assert_eq!(judged.criteria[1].limit_ns, Some(12_500));
    assert!(!judged.criteria[1].pass);
    assert!(judge(14_001).criteria[1].pass);
}

#[test]
fn counts_that_do_not_add_up_are_told() {
    let mut intervals = plain(3, 10.0, 300, 1000);
    assert!(is_countable(&intervals, 0));
    intervals[1].requests = u64::MAX - 2_000;
    assert!(is_countable(&intervals, 0));
    intervals[2].errors.push(("reset".into(), 1));
    assert!(!is_countable(&intervals, 0));
    // The warmup does not count.
    assert!(is_countable(&intervals, 2));
    intervals[2].errors.push(("stale_retry".into(), u64::MAX));
    assert!(is_countable(&intervals, 2));
    intervals[2].errors.push(("stale_retry".into(), 1));
    assert!(!is_countable(&intervals, 2));

    let fine = evidence(plain(3, 10.0, 300, 1000), 0, good_summary());
    assert!(fine.is_countable());
    let misses = Misses { late_wakeups: u64::MAX, busy_loop_misses: 1, max_deadline_miss_ns: 0 };
    assert!(!Evidence { misses, ..fine }.is_countable());
    let many = MetricSummary { metric: Metric::Ttft, count: u64::MAX, p99_ns: 0, p999_ns: 0 };
    assert!(!evidence(Vec::new(), 0, vec![many, summary_with(Metric::EmitLag, 1)]).is_countable());
    let reused = MetricSummary { metric: Metric::TtftReused, ..many };
    assert!(evidence(Vec::new(), 0, vec![many, reused]).is_countable());
}

#[test]
fn reasons_name_their_figures() {
    let raw = |value_ns, limit_ns, worst_ns| RawFigures { value_ns, limit_ns, worst_ns };
    let misses = Misses { late_wakeups: 1, busy_loop_misses: 2, max_deadline_miss_ns: 77 };
    let emit = |far_tail| Reason::EmitLag { far_tail, lag_ns: 5, sends: 9, misses };
    assert_eq!(emit(false).raw_figures(), raw(5, 10_000, 77));
    assert_eq!(emit(true).raw_figures(), raw(5, 1_000_000, 77));
    let mock = Reason::MockWriteLag { mock_p99_ns: 3, mock_limit_ns: 4 };
    assert_eq!(mock.raw_figures(), raw(3, 4, 0));
    let slip = Reason::Slip { slip_p99_ns: 6, slip_limit_ns: 7, count: 8 };
    assert_eq!(slip.raw_figures(), raw(6, 7, 0));
    assert_eq!(Reason::NoSlip.raw_figures(), raw(0, 0, 0));
}
