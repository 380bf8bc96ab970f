use brisk_bench::loadgen::planned::{can_merge, merge_planned, PlannedInterval, PlannedLoad};
use brisk_bench::loadgen::schedule::{
    ramp_segments, share, Arrival, Draw, FixedArrivals, Point, RateSegment, StreamArrivals,
    StreamPlan, SEC_NS,
};
use fastrand::Rng;

/// Streams with log-normal durations up to a longest one.
struct Streams {
    rng: Rng,
    plan: StreamPlan,
    chunk_rate: f64,
    median: f64,
    sigma: f64,
    longest: f64,
    /// Arrivals per second.
    rate: f64,
}

impl Streams {
    fn new(seed: u64, chunk_rate: f64, durations: (f64, f64, f64), ttft_us: u64, open: f64) -> Self {
        let (median, p99, longest) = durations;
        let plan = StreamPlan {
            interval_us: (1e6 / chunk_rate).round() as u64,
            ttft_ns: ttft_us * 1_000,
        };
        let sigma = (p99 / median).ln() / 2.326_347_874;
        let mut streams =
            Streams { rng: Rng::with_seed(1), plan, chunk_rate, median, sigma, longest, rate: 1.0 };
        let n: u32 = 200_000;
        let mut total = 0.0;
        for _ in 0..n {
            let d = streams.duration();
            total += streams.plan.lifetime_ns(streams.chunks_for(d)) as f64 / 1e9;
        }
        streams.rate = open / (total / f64::from(n));
        streams.rng = Rng::with_seed(seed);
        streams
    }

    fn uniform(&mut self) -> f64 {
        1.0 - self.rng.f64()
    }

    fn duration(&mut self) -> f64 {
        loop {
            let (a, b) = (self.uniform(), self.uniform());
            let normal = (-2.0 * a.ln()).sqrt() * (std::f64::consts::TAU * b).cos();
            let d = self.median * (self.sigma * normal).exp();
            if d <= self.longest {
                return d;
            }
        }
    }

    /// What is left of a stream found open: long ones are found more often.
    fn residual(&mut self) -> f64 {
        loop {
            let d = self.duration();
            if self.uniform() <= d / self.longest {
                return d * self.uniform();
            }
        }
    }

    fn chunks_for(&self, duration: f64) -> u32 {
        ((duration * self.chunk_rate).round() as u32).max(1)
    }

    fn interarrival(&mut self) -> u64 {
        (-self.uniform().ln() / self.rate * 1e9).round() as u64
    }

    fn next(&mut self, arrivals: &mut StreamArrivals) -> Option<Arrival> {
        loop {
            match arrivals.next_draw() {
                Draw::Nothing => return None,
                Draw::Prebuilt { elapsed_ns, .. } => {
                    let residual = self.residual();
                    let elapsed = elapsed_ns as f64 / 1e9;
                    let chunks = if residual <= elapsed {
                        None
                    } else {
                        Some(self.chunks_for(residual - elapsed))
                    };
                    if let Ok(arrival) = arrivals.take_prebuilt(chunks) {
                        return arrival;
                    }
                }
                Draw::Poisson { .. } => {
                    let interarrival = self.interarrival();
                    let duration = self.duration();
                    let chunks = self.chunks_for(duration);
                    return arrivals.take_poisson(interarrival, chunks);
                }
            }
        }
    }

    fn arrivals(&mut self, concurrency: u32, origin: u64, end: u64) -> StreamArrivals {
        let first = self.interarrival();
        StreamArrivals::new(self.plan, concurrency, origin, end, first)
    }
}

const LONG: (f64, f64, f64) = (5.0, 60.0, 120.0);

#[test]
fn lifetimes_end_with_the_last_chunk() {
    let plan = StreamPlan { interval_us: 33_333, ttft_ns: 300_000_000 };
    assert_eq!(plan.lifetime_ns(1), 300_000_000);
    assert_eq!(plan.lifetime_ns(3), 300_000_000 + 2 * 33_333_000);
    assert_eq!(
        plan.arrival(7, 3),
        Arrival { sched_ns: 7, chunks: 3, lifetime_ns: 366_666_000, step: 0 }
    );
}

#[test]
fn shares_cover_the_total() {
    for (total, parts) in [(1000, 1), (1000, 3), (5, 8), (7, 7)] {
        let shares: Vec<u32> = (0..parts).map(|i| share(total, parts, i)).collect();
        assert_eq!(shares.iter().sum::<u32>(), total);
        assert!(shares.iter().max().unwrap() - shares.iter().min().unwrap() <= 1);
    }
}

#[test]
fn stream_arrivals_prebuild_then_poisson() {
    let origin = 10 * SEC_NS;
    let end = origin + 400 * SEC_NS;
    let mut streams = Streams::new(42, 30.0, LONG, 0, 200.0);
    let mut arrivals = streams.arrivals(200, origin, end);
    let mut all: Vec<Arrival> = Vec::new();
    while let Some(a) = streams.next(&mut arrivals) {
        all.push(a);
    }
    assert!(all.windows(2).all(|w| w[0].sched_ns <= w[1].sched_ns));
    assert!(all.iter().all(|a| a.sched_ns >= origin && a.sched_ns < end));
    assert!(all.iter().all(|a| a.chunks >= 1 && a.chunks <= 3600));
    // Pre-built streams whose residual life ends within their start offset
    // are skipped; most of the 200 survive.
    let in_first_second = all.iter().filter(|a| a.sched_ns < origin + SEC_NS).count();
    assert!((150..=260).contains(&in_first_second), "{in_first_second}");
    // Poisson part after the first second: rate 200 / E[lifetime].
    let later = all.iter().filter(|a| a.sched_ns >= origin + SEC_NS).count();
    let rate = later as f64 / 399.0;
    assert!((rate / streams.rate - 1.0).abs() < 0.05, "rate {rate} vs {}", streams.rate);
    // Deterministic for a seed.
    let mut again = Streams::new(42, 30.0, LONG, 0, 200.0);
    let mut arrivals = again.arrivals(200, origin, end);
    assert_eq!(again.next(&mut arrivals), Some(all[0]));
}

/// The load offered over `secs` seconds.
fn offered(streams: &mut Streams, target: u32, secs: u64) -> Vec<PlannedInterval> {
    let end = secs * SEC_NS;
    let mut arrivals = streams.arrivals(target, 0, end);
    let mut planned = PlannedLoad::new(0, SEC_NS, secs as usize);
    let mut next = streams.next(&mut arrivals);
    let mut t = 0;
    while t < end {
        while let Some(a) = next {
            if a.sched_ns > t {
                break;
            }
            planned.start(&a, a.sched_ns, streams.plan.interval_us * 1_000);
            next = streams.next(&mut arrivals);
        }
        planned.sample(t);
        t += 10_000_000;
    }
    planned.finish()
}

fn concurrency(p: &PlannedInterval) -> f64 {
    p.open as f64 / p.samples as f64
}

#[test]
fn planned_concurrency_matches_target_in_steady_state() {
    let target = 300;
    let mut streams = Streams::new(7, 30.0, LONG, 0, f64::from(target));
    let intervals = offered(&mut streams, target, 600);
    // After a warmup longer than the longest stream the mean over the rest
    // sits at the target; the Poisson process itself fluctuates by about
    // sqrt(target) around it.
    let steady = &intervals[150..];
    let mean = steady.iter().map(concurrency).sum::<f64>() / steady.len() as f64;
    assert!((mean / f64::from(target) - 1.0).abs() < 0.05, "mean {mean}");
    let chunks: u64 = steady.iter().map(|p| p.chunks).sum();
    let chunk_rate = chunks as f64 / 450.0;
    let offered = f64::from(target) * 30.0;
    assert!(
        (chunk_rate / offered - 1.0).abs() < 0.06,
        "chunk rate {chunk_rate} vs {offered}"
    );
}

#[test]
fn prebuilt_streams_hold_the_target_from_the_first_second_on() {
    let target = 10_000;
    let mut streams = Streams::new(3, 20.0, (0.5, 2.0, 3.0), 20_000, f64::from(target));
    // No overshoot once the spread window is over; the Poisson noise at
    // 10 000 streams is about 1%.
    for p in &offered(&mut streams, target, 6)[1..] {
        let dev = concurrency(p) / f64::from(target) - 1.0;
        assert!(dev.abs() < 0.04, "{p:?}");
    }
}

#[test]
fn progression_counts_per_interval() {
    let mut planned = PlannedLoad::new(1_000, 100, 5);
    // Instants 1050, 1080, ..., 1050 + 9·30 = 1320.
    planned.add_progression(1_050, 30, 10);
    // Intervals: [1000,1100): 1050,1080 → 2; [1100,1200): 1110,1140,1170 → 3;
    // [1200,1300): 1200,1230,1260,1290 → 4; [1300,1400): 1320 → 1.
    let chunks: Vec<u64> = planned.finish().iter().map(|p| p.chunks).collect();
    assert_eq!(chunks, [2, 3, 4, 1, 0]);

    let mut planned = PlannedLoad::new(0, 100, 2);
    planned.add_progression(150, 100, 5);
    planned.add_progression(50, 0, 3);
    planned.add_progression(5_000, 1, 3);
    let chunks: Vec<u64> = planned.finish().iter().map(|p| p.chunks).collect();
    assert_eq!(chunks, [3, 1]);
}

#[test]
fn planned_open_expires_at_lifetime_end() {
    let mut planned = PlannedLoad::new(0, 1_000, 3);
    let a = Arrival { sched_ns: 100, chunks: 2, lifetime_ns: 1_000, step: 0 };
    planned.start(&a, 100, 1_000);
    assert_eq!(planned.sample(500), 1);
    assert_eq!(planned.sample(1_099), 1);
    assert_eq!(planned.sample(1_100), 0);
    let merged = merge_planned(&vec![
        planned.finish(),
        vec![PlannedInterval { index: 4, open: 2, samples: 1, chunks: 3 }],
    ]);
    let mean = |i: usize| -> f64 {
        merged[i].shares.iter().map(|(open, samples)| *open as f64 / *samples as f64).sum()
    };
    assert_eq!(merged.len(), 5);
    assert!((mean(0) - 1.0).abs() < 1e-12);
    assert!((mean(1) - 0.5).abs() < 1e-12);
    assert_eq!(merged[4].chunks, 3);
    assert_eq!(merged[0].chunks + merged[1].chunks, 2);
}

fn next_arrival(arrivals: &mut FixedArrivals) -> Option<Arrival> {
    while let Some((k, rate)) = arrivals.next_point() {
        let offset = (k as f64 / f64::from_bits(rate) * 1e9).round() as u64;
        if let Point::Mine(arrival) = arrivals.take(offset) {
            return Some(arrival);
        }
    }
    None
}

#[test]
fn fixed_arrivals_interleave_shards() {
    let segments = vec![RateSegment {
        start_ns: 0,
        end_ns: SEC_NS,
        rate: 10.0f64.to_bits(),
        step: 0,
    }];
    let collect = |shard, shards| {
        let mut a = FixedArrivals::new(segments.clone(), shard, shards, 3);
        std::iter::from_fn(move || next_arrival(&mut a))
            .map(|a| a.sched_ns)
            .collect::<Vec<_>>()
    };
    let all = collect(0, 1);
    assert_eq!(all, (0..10).map(|k| k * 100_000_000).collect::<Vec<_>>());
    let mut merged = collect(0, 3);
    merged.extend(collect(1, 3));
    merged.extend(collect(2, 3));
    merged.sort_unstable();
    assert_eq!(merged, all);
}

#[test]
fn ramp_segments_grow_geometrically() {
    let rates: Vec<f64> = (0..3).map(|i| 100.0 * 1.1f64.powi(i)).collect();
    let bits: Vec<u64> = rates.iter().map(|r| r.to_bits()).collect();
    let segs = ramp_segments(100, 5 * SEC_NS, 100.0f64.to_bits(), &bits, 2 * SEC_NS);
    assert_eq!(segs.len(), 4);
    assert_eq!(segs[0].step, 0);
    assert_eq!(
        (segs[1].start_ns, segs[1].end_ns),
        (100 + 5 * SEC_NS, 100 + 7 * SEC_NS)
    );
    assert!((f64::from_bits(segs[1].rate) - 100.0).abs() < 1e-9);
    assert!((f64::from_bits(segs[2].rate) - 110.0).abs() < 1e-9);
    assert!((f64::from_bits(segs[3].rate) - 121.0).abs() < 1e-9);
    let mut arrivals = FixedArrivals::new(segs, 0, 1, 1);
    let steps: Vec<u32> = std::iter::from_fn(|| next_arrival(&mut arrivals))
        .map(|a| a.step)
        .collect();
    assert_eq!(steps.iter().filter(|&&s| s == 0).count(), 500);
    assert_eq!(steps.iter().filter(|&&s| s == 1).count(), 200);
    assert_eq!(steps.iter().filter(|&&s| s == 2).count(), 220);
    assert_eq!(steps.iter().filter(|&&s| s == 3).count(), 242);
    assert_eq!(ramp_segments(0, 0, 1, &[1, 2], 1)[0].step, 1);
}

#[test]
fn a_shard_without_streams_has_no_arrivals() {
    let plan = StreamPlan { interval_us: 1, ttft_ns: 0 };
    let arrivals = StreamArrivals::new(plan, 0, 0, SEC_NS, 5);
    assert_eq!(arrivals.next_draw(), Draw::Nothing);
    let mut late = StreamArrivals::new(plan, 1, 0, SEC_NS, 2 * SEC_NS);
    assert_eq!(late.next_draw(), Draw::Prebuilt { at_ns: 0, elapsed_ns: 0 });
    assert!(late.take_prebuilt(None).is_err());
    assert_eq!(late.next_draw(), Draw::Poisson { arrives_ns: 2 * SEC_NS });
    assert_eq!(late.take_poisson(1, 1), None);
}

#[test]
fn shards_share_out_the_grid_across_segments() {
    let segment = |start: u64, end: u64, rate: f64, step: u32| RateSegment {
        start_ns: start * SEC_NS,
        end_ns: end * SEC_NS,
        rate: rate.to_bits(),
        step,
    };
    let segments = vec![segment(0, 1, 7.0, 0), segment(1, 3, 5.0, 1), segment(3, 4, 11.0, 2)];
    let collect = |shard: usize, shards: usize| {
        let mut a = FixedArrivals::new(segments.clone(), shard, shards, 2);
        std::iter::from_fn(move || next_arrival(&mut a)).collect::<Vec<_>>()
    };
    let all = collect(0, 1);
    assert_eq!(all.len(), 28);
    for shards in 1..=4 {
        for shard in 0..shards {
            let mine = collect(shard, shards);
            let share: Vec<Arrival> =
                all.iter().skip(shard).step_by(shards).copied().collect();
            assert_eq!(mine, share);
        }
    }
    assert!(all.iter().all(|a| a.chunks == 2));
}

#[test]
fn planned_load_that_does_not_add_up_is_told() {
    let interval = |index: u64, chunks: u64| PlannedInterval { index, open: 1, samples: 1, chunks };
    assert!(can_merge(&vec![vec![interval(0, 3)], vec![interval(0, u64::MAX - 3)]]));
    assert!(!can_merge(&vec![vec![interval(0, 4)], vec![interval(0, u64::MAX - 3)]]));
    assert!(!can_merge(&vec![vec![interval(u64::MAX, 1)]]));
}
