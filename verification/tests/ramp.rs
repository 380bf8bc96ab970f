use brisk_bench::histogram::{Bounds, Latencies};
use brisk_bench::loadgen::ramp::{
    Cause, Figures, RAMP_REPORT_GRACE_NS, RampCoordinator, RampLimits, RampMessage, RampOutcome, StepReport, StepVerdict, step_name,
};
use brisk_bench::loadgen::run::{nonstream_schedule, RateMode};
use brisk_bench::loadgen::schedule::{ramp_segments, SEC_NS};

const BOUNDS: Bounds = Bounds { low: 1, high: 3_600_000_000_000, sigfig: 3 };

/// The p99 limit of the coordinator tests.
const LIMIT_NS: u64 = 2_000_000;

fn report(step: u32, values: &[u64], errors: u64) -> StepReport {
    let mut latency = Latencies::new(BOUNDS);
    for &v in values {
        latency.record(v);
    }
    StepReport {
        step,
        latency,
        requests: values.len() as u64,
        errors,
        censored: 0,
        unsent: 0,
        max_emit_lag_ns: 1_000,
        late_sends: 0,
    }
}

/// A partial report as a stopped shard sends it: `unsent` planned sends
/// censored with a large bound.
fn stopped_report(step: u32, values: &[u64], unsent: u64, max_emit_lag_ns: u64) -> StepReport {
    let mut partial = report(step, values, 0);
    partial.latency.record_n(SEC_NS, unsent);
    partial.censored = unsent;
    partial.unsent = unsent;
    partial.max_emit_lag_ns = max_emit_lag_ns;
    partial
}

/// A coordinator and whether it has stopped the shards.
struct Ramp {
    coordinator: RampCoordinator,
    all_stopped: bool,
}

/// A coordinator of `shards` shards over steps of one second from 0 at
/// 100, 150, 225, ... per second.
fn coordinator(shards: usize, steps: u32) -> Ramp {
    let mut rates = Vec::new();
    let mut rate: f64 = 100.0;
    for _ in 0..steps {
        rates.push(rate.to_bits());
        rate *= 1.5;
    }
    let segments = ramp_segments(0, 0, 100.0f64.to_bits(), &rates, SEC_NS);
    let limits = RampLimits::new(LIMIT_NS, SEC_NS, 300 * SEC_NS);
    Ramp {
        coordinator: RampCoordinator::new(shards, limits, BOUNDS, &segments),
        all_stopped: false,
    }
}

/// Delivers a message as the running phase does, well before any reporting
/// deadline.
fn deliver(ramp: &mut Ramp, message: RampMessage) {
    if let RampMessage::Step(report) = &message {
        assert!(ramp.coordinator.can_take(report));
    }
    ramp.all_stopped |= ramp.coordinator.on_message(message);
    ramp.all_stopped |= ramp.coordinator.advance(Some(0));
}

fn step(ramp: &mut Ramp, report: StepReport) {
    deliver(ramp, RampMessage::Step(report));
}

fn verdicts(outcome: &RampOutcome) -> Vec<StepVerdict> {
    outcome.steps.iter().map(|s| s.verdict).collect()
}

fn sustainable(outcome: &RampOutcome) -> Option<f64> {
    outcome.max_sustainable_rate.map(f64::from_bits)
}

fn stopped_by(outcome: &RampOutcome) -> String {
    outcome.stopped_by(&Figures {
        share_percent: "2.00".into(),
        limit_ms: "2.000".into(),
        lag_ms: "150.0".into(),
        saturation_ms: "100.0".into(),
    })
}

#[test]
fn ramp_stops_at_the_first_slow_step() {
    let mut ramp = coordinator(2, 3);
    let fast = vec![500_000; 100];
    let slow = vec![3_000_000; 100];
    step(&mut ramp, report(1, &fast, 0));
    assert!(ramp.coordinator.steps.is_empty(), "waits for every shard");
    step(&mut ramp, report(1, &fast, 0));
    assert_eq!(ramp.coordinator.steps.len(), 1);
    assert!(!ramp.all_stopped);
    step(&mut ramp, report(2, &fast, 0));
    step(&mut ramp, report(2, &slow, 0));
    assert!(ramp.all_stopped);
    step(&mut ramp, report(3, &fast, 0));
    step(&mut ramp, report(3, &fast, 0));
    let outcome = ramp.coordinator.finish().unwrap();
    assert_eq!(
        verdicts(&outcome),
        [StepVerdict::Passed, StepVerdict::P99Exceeded]
    );
    assert!(outcome.steps[0].passed && !outcome.steps[1].passed);
    assert_eq!(sustainable(&outcome), Some(100.0));
    assert_eq!(outcome.stop_reason(), Some(StepVerdict::P99Exceeded));
    assert!(
        stopped_by(&outcome).contains("step 2"),
        "{}",
        stopped_by(&outcome)
    );
    assert_eq!(stopped_by(&outcome), "step 2 p99 exceeded the limit");
}

#[test]
fn ramp_fails_steps_with_errors() {
    let mut ramp = coordinator(1, 2);
    step(&mut ramp, report(1, &[1_000; 98], 2));
    assert!(ramp.all_stopped);
    let outcome = ramp.coordinator.finish().unwrap();
    assert_eq!(verdicts(&outcome), [StepVerdict::Errors]);
    assert_eq!(outcome.max_sustainable_rate, None);
    assert_eq!(outcome.stop_reason(), Some(StepVerdict::Errors));
    assert!(
        stopped_by(&outcome).contains("failed"),
        "{}",
        stopped_by(&outcome)
    );
    assert_eq!(stopped_by(&outcome), "step 1 failed 2.00% of its requests");
}

#[test]
fn one_percent_of_errors_does_not_fail_a_step() {
    let mut ramp = coordinator(1, 1);
    step(&mut ramp, report(1, &[1_000; 99], 1));
    assert!(!ramp.all_stopped);
    let outcome = ramp.coordinator.finish().unwrap();
    assert_eq!(verdicts(&outcome), [StepVerdict::Passed]);
}

#[test]
fn a_step_without_requests_fails() {
    let mut ramp = coordinator(1, 2);
    step(&mut ramp, report(1, &[], 0));
    assert!(ramp.all_stopped);
    let outcome = ramp.coordinator.finish().unwrap();
    assert_eq!(verdicts(&outcome), [StepVerdict::NoRequests]);
    assert_eq!(stopped_by(&outcome), "step 1 completed no request");
}

#[test]
fn ramp_passing_every_step_ends_at_the_last() {
    let mut ramp = coordinator(1, 2);
    step(&mut ramp, report(1, &[1_000; 100], 0));
    step(&mut ramp, report(2, &[1_000; 100], 0));
    assert!(!ramp.all_stopped);
    let outcome = ramp.coordinator.finish().unwrap();
    assert_eq!(verdicts(&outcome), [StepVerdict::Passed; 2]);
    assert_eq!(outcome.stop_reason(), None);
    assert_eq!(sustainable(&outcome), Some(150.0));
    assert!(stopped_by(&outcome).contains("all steps passed"));
}

#[test]
fn saturation_stops_every_shard_at_once_and_is_told_apart_from_latency() {
    let mut ramp = coordinator(2, 3);
    let fast = vec![500_000; 100];
    step(&mut ramp, report(1, &fast, 0));
    step(&mut ramp, report(1, &fast, 0));
    let saturated = RampMessage::Saturated {
        shard: 1,
        step: 2,
        lag_ns: 150_000_000,
    };
    deliver(&mut ramp, saturated);
    // Every shard is stopped before any of them reported step 2.
    assert!(ramp.all_stopped);
    // The stopped shards report what they made of step 2; the record waits
    // for them.
    assert_eq!(ramp.coordinator.steps.len(), 1);
    step(&mut ramp, stopped_report(2, &fast, 3, 20_000));
    step(&mut ramp, stopped_report(2, &fast[..60], 40, 150_000_000));
    let outcome = ramp.coordinator.finish().unwrap();
    assert_eq!(
        verdicts(&outcome),
        [StepVerdict::Passed, StepVerdict::ToolSaturated]
    );
    let failed = &outcome.steps[1];
    assert!(!failed.passed);
    assert_eq!(
        (failed.requests, failed.unsent, failed.censored),
        (160, 43, 43)
    );
    assert_eq!(failed.max_emit_lag_ns, 150_000_000);
    assert_eq!(outcome.stop_reason(), Some(StepVerdict::ToolSaturated));
    assert_eq!(sustainable(&outcome), Some(100.0));
    let said = stopped_by(&outcome);
    assert!(
        said.starts_with("step 2: shard 1 ") && said.contains("tool saturated"),
        "{said}"
    );
    assert_eq!(
        said,
        "step 2: shard 1 reached a send 150.0 ms after its scheduled time, beyond the 100.0 ms \
         limit: loadgen emit lag, tool saturated"
    );
    assert_eq!(outcome.limits.saturation_lag_ns, 100_000_000);
}

#[test]
fn a_p99_decided_by_late_sends_is_the_tools() {
    // Steps failing their p99 alike, 3 ms at the tail of 100 sends: where
    // the load generator made more than 1% of the sends later than the limit
    // the tail is its own; at 1% the target's latency had to add to it.
    let mut values = vec![500_000; 97];
    values.extend([3_000_000; 3]);
    for (late_sends, unsent, verdict) in [
        (2, 0, StepVerdict::ToolSaturated),
        (1, 1, StepVerdict::ToolSaturated),
        (1, 0, StepVerdict::P99Exceeded),
    ] {
        let mut ramp = coordinator(1, 2);
        let mut only = report(1, &values, 0);
        only.late_sends = late_sends;
        only.unsent = unsent;
        only.censored = unsent;
        step(&mut ramp, only);
        assert!(ramp.all_stopped);
        let outcome = ramp.coordinator.finish().unwrap();
        assert_eq!(verdicts(&outcome), [verdict]);
        assert_eq!(outcome.steps[0].late_sends, late_sends);
        assert_eq!(outcome.stop_reason(), Some(verdict));
        let said = stopped_by(&outcome);
        assert_eq!(
            said.contains("loadgen emit lag, tool saturated"),
            verdict == StepVerdict::ToolSaturated,
            "{said}"
        );
    }
}

#[test]
fn saturation_in_the_warmup_leaves_no_sustainable_rate() {
    let mut ramp = coordinator(2, 3);
    let saturated = RampMessage::Saturated {
        shard: 0,
        step: 0,
        lag_ns: 120_000_000,
    };
    deliver(&mut ramp, saturated);
    assert!(ramp.all_stopped);
    let outcome = ramp.coordinator.finish().unwrap();
    assert!(outcome.steps.is_empty());
    assert_eq!(outcome.stop_reason(), Some(StepVerdict::ToolSaturated));
    assert_eq!(outcome.max_sustainable_rate, None);
    let said = stopped_by(&outcome);
    assert!(said.starts_with("warmup: "), "{said}");
}

#[test]
fn saturation_is_judged_after_the_steps_before_it() {
    let fast = vec![500_000; 100];
    let slow = vec![3_000_000; 100];
    for (late_report, expected) in [
        (
            &fast,
            [StepVerdict::Passed, StepVerdict::ToolSaturated].as_slice(),
        ),
        (&slow, [StepVerdict::P99Exceeded].as_slice()),
    ] {
        let mut ramp = coordinator(2, 3);
        step(&mut ramp, report(1, &fast, 0));
        // Shard 1 saturates in step 2 before its step 1 report is in.
        let saturated = RampMessage::Saturated {
            shard: 1,
            step: 2,
            lag_ns: 120_000_000,
        };
        deliver(&mut ramp, saturated);
        assert!(ramp.all_stopped);
        assert!(ramp.coordinator.steps.is_empty());
        step(&mut ramp, report(1, late_report, 0));
        step(&mut ramp, stopped_report(2, &fast, 5, 1_000));
        step(&mut ramp, stopped_report(2, &fast, 9, 1_000));
        let outcome = ramp.coordinator.finish().unwrap();
        assert_eq!(verdicts(&outcome), expected);
        assert_eq!(outcome.stop_reason(), expected.last().copied());
    }
}

#[test]
fn a_step_reported_late_saturates_the_ramp() {
    let mut ramp = coordinator(2, 3);
    step(&mut ramp, report(1, &[500_000; 100], 0));
    let limits = ramp.coordinator.limits;
    let deadline = SEC_NS + limits.judge_delay_ns + RAMP_REPORT_GRACE_NS;
    assert!(!ramp.coordinator.advance(Some(deadline - 1)));
    assert!(ramp.coordinator.advance(Some(deadline)));
    // The stalled shard's report, sent once it stopped, still counts.
    step(&mut ramp, stopped_report(1, &[500_000; 50], 50, 0));
    let outcome = ramp.coordinator.finish().unwrap();
    assert_eq!(verdicts(&outcome), [StepVerdict::ToolSaturated]);
    assert_eq!(outcome.steps[0].requests, 150);
    assert_eq!(outcome.max_sustainable_rate, None);
    let said = stopped_by(&outcome);
    assert!(said.contains("1 of 2 shard(s) did not report"), "{said}");
}

#[test]
fn a_ramp_that_ends_with_a_step_unreported_is_an_error() {
    let mut ramp = coordinator(1, 2);
    step(&mut ramp, report(1, &[1_000; 100], 0));
    let err = ramp.coordinator.finish().unwrap_err();
    assert!(err.message().contains("step 2"), "{}", err.message());
}

#[test]
fn ramp_limits_follow_the_p99_limit_and_the_step_length() {
    let ms = 1_000_000;
    // The usual ramp: 2 ms p99 limit, 20 s steps.
    assert_eq!(
        RampLimits::new(2 * ms, 20 * SEC_NS, 300 * SEC_NS),
        RampLimits {
            stop_p99_ns: 2 * ms,
            judge_delay_ns: 52 * ms,
            saturation_lag_ns: 100 * ms,
            request_timeout_ns: SEC_NS,
        }
    );
    assert_eq!(
        RampLimits::new(100 * ms, 20 * SEC_NS, 300 * SEC_NS),
        RampLimits {
            stop_p99_ns: 100 * ms,
            judge_delay_ns: 300 * ms,
            saturation_lag_ns: 100 * ms,
            request_timeout_ns: 10 * SEC_NS,
        }
    );
    // Short steps and a shorter configured timeout.
    assert_eq!(
        RampLimits::new(2 * ms, 300 * ms, 500 * ms),
        RampLimits {
            stop_p99_ns: 2 * ms,
            judge_delay_ns: 52 * ms,
            saturation_lag_ns: 30 * ms,
            request_timeout_ns: 500 * ms,
        }
    );
}

#[test]
fn a_ramp_ends_when_its_last_step_can_be_judged() {
    let limits = RampLimits::new(2_000_000, 2 * SEC_NS, 300 * SEC_NS);
    let rates: Vec<u64> = [100.0f64, 110.0, 121.0].iter().map(|r| r.to_bits()).collect();
    let mode = RateMode::Ramp { start: 100.0f64.to_bits(), rates, step_s: 2 };
    let (segments, end_ns) = nonstream_schedule(&mode, 5, 1, limits);
    assert_eq!(segments.len(), 4);
    assert_eq!(end_ns, 5 + 7 * SEC_NS + limits.judge_delay_ns);
}

#[test]
fn merged_reports_add_up_and_keep_the_largest_lag() {
    let mut all = report(1, &[1_000; 3], 1);
    let mut other = stopped_report(1, &[2_000; 2], 4, 7_000);
    other.late_sends = 2;
    assert!(all.can_merge(&other));
    all.merge(&other);
    assert_eq!((all.requests, all.errors, all.censored, all.unsent), (5, 1, 4, 4));
    assert_eq!((all.late_sends, all.max_emit_lag_ns), (2, 7_000));
    assert_eq!(all.latency.count(), 9);
}

#[test]
fn a_fourth_report_of_two_shards_is_not_taken() {
    let mut ramp = coordinator(2, 3);
    ramp.coordinator.on_message(RampMessage::Step(report(2, &[1_000], 0)));
    assert!(ramp.coordinator.can_take(&report(2, &[1_000], 0)));
    ramp.coordinator.on_message(RampMessage::Step(report(2, &[1_000], 0)));
    assert!(!ramp.coordinator.can_take(&report(2, &[1_000], 0)));
    assert!(ramp.coordinator.can_take(&report(1, &[1_000], 0)));
}

#[test]
fn steps_are_named_by_their_number() {
    assert_eq!(step_name(0), "warmup");
    assert_eq!(step_name(12), "step 12");
}

#[test]
fn a_saturated_ramp_says_what_was_late() {
    let figures = Figures {
        share_percent: "0.00".to_owned(),
        limit_ms: "2.000".to_owned(),
        lag_ms: "120.0".to_owned(),
        saturation_ms: "100.0".to_owned(),
    };
    let late = Cause::LateSend {
        shard: 1,
        late_ns: 120_000_000,
    };
    assert_eq!(
        late.message(4, &figures),
        "shard 1 reached a send 120.0 ms after its scheduled time, beyond the 100.0 ms limit: \
         loadgen emit lag, tool saturated"
    );
    assert_eq!(
        Cause::Unreported { missing: 3 }.message(4, &figures),
        "3 of 4 shard(s) did not report it within 500 ms of its deadline: loadgen stalled, \
         tool saturated"
    );
}
