use brisk_bench::histogram::Bounds;
use brisk_bench::loadgen::cli::CpuSet;
use brisk_bench::loadgen::flight::Mode;
use brisk_bench::loadgen::ramp::RampLimits;
use brisk_bench::loadgen::run::{
    assign_cpus, bigbody_mode, bigbody_scenario, bigbody_schedule, check_descriptors, check_shards,
    check_tls, choose_origin, markers_expected, nonstream_scenario, nonstream_schedule, secs_ns,
    shard_seed, whole_mode, FixedPhase, PhaseTotals, PhaseWatch, Poll, RateMode, Status,
    StatusLine, StreamPhase,
};
use brisk_bench::loadgen::schedule::{RateSegment, StreamPlan, SEC_NS};
use brisk_bench::loadgen::shard::{Counters, Shard, ShardConfig};

const BOUNDS: Bounds = Bounds { low: 1, high: 3_600_000_000_000, sigfig: 3 };

#[test]
fn cpus_are_split_or_shared() {
    assert_eq!(assign_cpus(None, 2), vec![None, None]);
    let set = CpuSet(vec![2, 3]);
    assert_eq!(
        assign_cpus(Some(&set), 2),
        vec![Some(vec![2]), Some(vec![3])]
    );
    assert_eq!(assign_cpus(Some(&set), 3), vec![Some(vec![2, 3]); 3]);
    let one = CpuSet(vec![3]);
    assert_eq!(assign_cpus(Some(&one), 1), vec![Some(vec![3])]);
}

#[test]
fn shard_seeds_differ() {
    assert_ne!(shard_seed(1, 0), shard_seed(1, 1));
    assert_eq!(shard_seed(1, 0), shard_seed(1, 0));
}

#[test]
fn shard_seeds_are_those_of_earlier_runs() {
    assert_eq!(shard_seed(0, 0), 0x9e37_79b9_7f4a_7c15);
    assert_eq!(shard_seed(1, 1), 1 ^ 0x3c6e_f372_fe94_f82a);
}

#[test]
fn seconds_saturate() {
    assert_eq!(secs_ns(3), 3_000_000_000);
    assert_eq!(secs_ns(u64::MAX), u64::MAX);
}

#[test]
fn the_origin_leaves_time_to_start() {
    assert_eq!(
        choose_origin(5, 1_700_000_000_000_999_999),
        (200_000_005, 1_700_000_000_200)
    );
}

#[test]
fn tls_options_have_to_agree_with_the_target() {
    assert_eq!(check_tls(true, true), Ok(true));
    assert_eq!(check_tls(false, false), Ok(false));
    assert_eq!(check_tls(true, false), Err("an https target needs --tls-ca".to_string()));
    assert_eq!(
        check_tls(false, true),
        Err("--tls-ca was given for a plaintext http target".to_string())
    );
}

#[test]
fn descriptors_and_shards_are_checked() {
    assert_eq!(check_descriptors(None, 1_000_000), Ok(()));
    assert_eq!(check_descriptors(Some(1_256), 1_000), Ok(()));
    assert_eq!(
        check_descriptors(Some(1_255), 1_000),
        Err("RLIMIT_NOFILE is 1255, below the 1256 descriptors this run may need; raise the hard \
             limit"
            .to_string())
    );
    assert_eq!(check_shards(2, 2), Ok(()));
    assert_eq!(
        check_shards(3, 2),
        Err("--shards 3 exceeds the 2 concurrent streams".to_string())
    );
}

#[test]
fn modes_and_scenarios_follow_the_options() {
    assert!(!markers_expected(77));
    assert!(markers_expected(78));
    assert_eq!(whole_mode(2, 77), Mode::Whole { ttft_ns: 2_000, marker: false });
    assert_eq!(whole_mode(u64::MAX, 78), Mode::Whole { ttft_ns: u64::MAX, marker: true });
    assert_eq!(bigbody_mode(1, 3), Mode::Stream { ttft_ns: 1_000, interval_ns: 3_000 });
    assert_eq!(nonstream_scenario(true), "nonstream-ramp");
    assert_eq!(nonstream_scenario(false), "nonstream");
    assert_eq!(bigbody_scenario("10m"), "bigbody-10m");
}

#[test]
fn a_fixed_rate_is_one_segment() {
    let limits = RampLimits::new(2_000_000, SEC_NS, SEC_NS);
    let mode = RateMode::Fixed { rate: 7, measure_s: 3 };
    let (segments, end_ns) = nonstream_schedule(&mode, 10, 2, limits);
    assert_eq!(end_ns, 10 + 5 * SEC_NS);
    assert_eq!(segments, [RateSegment { start_ns: 10, end_ns, rate: 7, step: 0 }]);
    let (segments, end_ns) = bigbody_schedule(10, 2, 3, 7);
    assert_eq!(segments, [RateSegment { start_ns: 10, end_ns: 10 + 5 * SEC_NS, rate: 7, step: 0 }]);
    assert_eq!(end_ns, 10 + 5 * SEC_NS);
}

#[test]
fn ramp_shards_know_the_evaluated_steps() {
    let limits = RampLimits::new(2_000_000, SEC_NS, 300 * SEC_NS);
    let segment = |step: u32| RateSegment { start_ns: 0, end_ns: 1, rate: 1, step };
    let mut phase = FixedPhase {
        shards: 2,
        segments: vec![segment(0), segment(1), segment(2)],
        origin_ns: 3,
        end_ns: 4,
        mode: whole_mode(0, 100),
        chunks: 1,
        timeout_ns: 300 * SEC_NS,
        bounds: BOUNDS,
        limits: Some(limits),
    };
    let (config, arrivals) = phase.spec(1);
    assert_eq!((config.index, config.origin_ns, config.end_ns), (1, 3, 4));
    assert_eq!(config.request_timeout_ns, SEC_NS);
    let ramp = config.ramp.unwrap();
    assert_eq!(ramp.steps, [segment(1), segment(2)]);
    assert_eq!(
        (ramp.judge_delay_ns, ramp.saturation_lag_ns, ramp.stop_p99_ns),
        (52_000_000, 100_000_000, 2_000_000)
    );
    assert_eq!(arrivals.segments.len(), 3);
    assert_eq!((arrivals.shard, arrivals.shards), (1, 2));
    phase.limits = None;
    let (config, _) = phase.spec(0);
    assert!(config.ramp.is_none());
    assert_eq!(config.request_timeout_ns, 300 * SEC_NS);
}

#[test]
fn stream_shards_share_the_streams() {
    let phase = StreamPhase {
        shards: 3,
        concurrency: 10,
        plan: StreamPlan { interval_us: 33_333, ttft_ns: 500 },
        origin_ns: 1_000,
        total_s: 4,
        timeout_ns: 9,
        bounds: BOUNDS,
    };
    assert_eq!(phase.end_ns(), 1_000 + 4 * SEC_NS);
    let mut total: u32 = 0;
    for index in 0..3 {
        let shard = phase.spec(index, 77);
        total += shard.arrivals.prebuilt;
        assert_eq!(shard.arrivals.next_poisson_ns, 1_077);
        assert_eq!(shard.planned.chunks.len(), 4);
        assert_eq!(
            shard.config.mode,
            Mode::Stream { ttft_ns: 500, interval_ns: 33_333_000 }
        );
        assert_eq!(shard.config.request_timeout_ns, 9);
    }
    assert_eq!(total, 10);
}

#[test]
fn a_shard_that_ends_early_stops_the_others_once() {
    let mut watch = PhaseWatch::new(0, &[5 * SEC_NS, 7 * SEC_NS, 6 * SEC_NS]);
    assert_eq!(watch.end_ns, 7 * SEC_NS);
    assert_eq!(watch.poll(0, false), Poll { stop_all: false, wait_ns: 100_000_000 });
    assert_eq!(
        watch.poll(SEC_NS - 5_000_000, true),
        Poll { stop_all: true, wait_ns: 5_000_000 }
    );
    assert_eq!(watch.poll(SEC_NS, true), Poll { stop_all: false, wait_ns: 1_000_000 });
    let mut ending = PhaseWatch::new(0, &[5 * SEC_NS]);
    assert!(!ending.poll(5 * SEC_NS - 100_000_000, true).stop_all);
    assert!(ending.poll(5 * SEC_NS - 100_000_001, true).stop_all);
    assert_eq!(PhaseWatch::new(3, &[]).end_ns, 3);
}

#[test]
fn status_lines_come_every_second() {
    let mut watch = PhaseWatch::new(10, &[SEC_NS]);
    assert!(!watch.status_due(SEC_NS + 9));
    assert!(watch.status_due(3 * SEC_NS + 10));
    assert_eq!(watch.next_status_ns, 4 * SEC_NS + 10);
    assert!(!watch.status_due(3 * SEC_NS + 11));

    let mut status = Status::new(100);
    assert_eq!(
        status.line(600, 50, 5),
        StatusLine { elapsed_ns: 500, since_ns: 500, chunks: 50, requests: 5 }
    );
    assert_eq!(
        status.line(900, 70, 4),
        StatusLine { elapsed_ns: 800, since_ns: 300, chunks: 20, requests: 0 }
    );
}

#[test]
fn shard_outputs_add_up() {
    let config = |index: usize| ShardConfig {
        index,
        mode: whole_mode(0, 100),
        origin_ns: 0,
        end_ns: SEC_NS + index as u64,
        request_timeout_ns: SEC_NS,
        bounds: BOUNDS,
        ramp: None,
    };
    let mut totals = PhaseTotals::new(0, BOUNDS);
    for index in 0..2 {
        let shard = Shard::new(config(index), None);
        let mut output = shard.finish();
        output.counters.connections_opened = 3;
        totals.add(&output, 1);
    }
    assert_eq!(totals.counters, Counters { connections_opened: 6, ..Counters::default() });
    assert_eq!((totals.clock_steps, totals.end_ns), (2, SEC_NS + 1));
}

#[test]
fn totals_that_do_not_add_up_are_told() {
    let config = ShardConfig {
        index: 0,
        mode: Mode::Whole { ttft_ns: 0, marker: false },
        origin_ns: 0,
        end_ns: SEC_NS,
        request_timeout_ns: SEC_NS,
        bounds: BOUNDS,
        ramp: None,
    };
    let mut output = Shard::new(config, None).finish();
    let mut totals = PhaseTotals::new(0, BOUNDS);
    assert!(totals.has_room_for(&output, 1));
    totals.clock_steps = u64::MAX;
    assert!(!totals.has_room_for(&output, 1));
    assert!(totals.has_room_for(&output, 0));
    totals.counters.idle_closed = u64::MAX;
    output.counters.idle_closed = 1;
    assert!(!totals.has_room_for(&output, 0));
}
