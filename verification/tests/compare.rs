use brisk_bench::loadgen::censor::Metric;
use brisk_bench::loadgen::compare::{
    baseline_holds, check_comparable, differing_keys, distinct, load_params, title, Input, Judged, Param,
    Screened, Screening, Tail,
};
use serde_json::Value;

fn object(entries: &[(&str, Value)]) -> Value {
    let mut map = serde_json::Map::new();
    for (key, value) in entries {
        map.insert((*key).to_string(), value.clone());
    }
    Value::Object(map)
}

/// The parameters of several runs, with equal numbers for equal values.
fn numbered(runs: &[Value]) -> Vec<Option<Vec<Param>>> {
    let mut known: Vec<Value> = Vec::new();
    let mut out = Vec::new();
    for run in runs {
        out.push(run.as_object().map(|map| {
            map.iter()
                .map(|(key, value)| {
                    let at = known.iter().position(|k| k == value).unwrap_or_else(|| {
                        known.push(value.clone());
                        known.len() - 1
                    });
                    Param { key: key.clone(), value: at as u64 }
                })
                .collect()
        }));
    }
    out
}

fn shape(concurrency: u64) -> Value {
    object(&[
        ("concurrency", Value::from(concurrency)),
        ("chunk_rate", Value::from(30.0)),
    ])
}

fn stream_params(url: &str, concurrency: u64, measure_s: u64) -> Value {
    object(&[
        ("common", object(&[("url", Value::from(url))])),
        ("shape", shape(concurrency)),
        ("warmup_s", Value::from(150)),
        ("measure_s", Value::from(measure_s)),
    ])
}

#[test]
fn load_params_ignore_target_placement_and_length() {
    let a = object(&[
        (
            "common",
            object(&[
                ("url", Value::from("http://direct:1")),
                ("label", Value::from("direct-P")),
                ("seed", Value::from(1)),
            ]),
        ),
        ("shape", shape(1000)),
        ("warmup_s", Value::from(150)),
        ("measure_s", Value::from(300)),
    ]);
    let b = object(&[
        (
            "common",
            object(&[
                ("url", Value::from("http://floor:2")),
                ("label", Value::from("floor-P")),
                ("seed", Value::from(2)),
            ]),
        ),
        ("shape", shape(1000)),
        ("warmup_s", Value::from(150)),
        ("measure_s", Value::from(600)),
    ]);
    let c = object(&[
        ("common", object(&[])),
        ("shape", shape(2000)),
        ("rate", Value::from(5.0)),
        (
            "sizes",
            Value::from(vec![object(&[
                ("label", Value::from("10m")),
                ("bytes", Value::from(10_485_760)),
            ])]),
        ),
    ]);
    let list = Value::from(vec![1]);
    let runs = numbered(&[a, b, c, list]);
    let load = |i: usize| load_params(runs[i].as_ref());
    let (a, b) = (load(0).unwrap(), load(1).unwrap());
    assert!(differing_keys(&a, &b).is_empty());
    let c = load(2).unwrap();
    assert_eq!(differing_keys(&a, &c), ["rate", "shape", "warmup_s"]);
    assert_eq!(differing_keys(&c, &a), ["rate", "shape", "warmup_s"]);
    assert!(load(3).is_none());
}

#[test]
fn distinct_labels_join() {
    let labels = vec!["direct-P".to_owned(), "direct-P".to_owned()];
    assert_eq!(distinct(&labels), "direct-P");
}

#[test]
fn labels_are_sorted_each_once() {
    let labels: Vec<String> = ["b", "a", "b", "ab", "", "a"].iter().map(|s| s.to_string()).collect();
    assert_eq!(distinct(&labels), ",a,ab,b");
    assert_eq!(distinct(&Vec::new()), "");
}

fn input(path: &str, scenario: &str, params: Option<Vec<Param>>) -> Input {
    Input { path: path.into(), scenario: scenario.into(), params }
}

#[test]
fn only_runs_of_one_scenario_and_load_compare() {
    let mut runs = numbered(&[
        stream_params("http://a", 1000, 300),
        stream_params("http://a", 1000, 300),
        stream_params("http://b", 1000, 600),
        stream_params("http://b", 2000, 600),
    ]);
    let other = runs.pop().unwrap();
    let second = runs.pop().unwrap();
    let again = runs.pop().unwrap();
    let first = input("a.json", "stream", runs.pop().unwrap());
    let inputs = vec![input("a.json", "stream", again), input("b.json", "stream", second)];
    assert_eq!(check_comparable("stream", &first, &inputs), Ok(()));

    let inputs = vec![input("b.json", "stream", other)];
    assert_eq!(
        check_comparable("stream", &first, &inputs),
        Err("b.json ran another load than a.json (parameters shape); only runs of one load compare"
            .to_string())
    );
    let inputs = vec![input("b.json", "bigbody-1m", None)];
    assert_eq!(
        check_comparable("stream", &first, &inputs),
        Err("b.json is scenario \"bigbody-1m\", the first A file is \"stream\"; only runs of one \
             scenario compare"
            .to_string())
    );
    let inputs = vec![input("b.json", "stream", None)];
    assert_eq!(
        check_comparable("stream", &first, &inputs),
        Err("b.json: params is not an object".to_string())
    );
    let bare = input("a.json", "stream", None);
    assert_eq!(
        check_comparable("stream", &bare, &Vec::new()),
        Err("a.json: params is not an object".to_string())
    );
}

#[test]
fn ramp_results_do_not_compare() {
    let first = input("a.json", "nonstream-ramp", Some(Vec::new()));
    assert_eq!(
        check_comparable("nonstream-ramp", &first, &Vec::new()),
        Err("nonstream-ramp results mix the latencies of every ramp step; compare fixed-rate \
             nonstream runs (--rate) instead"
            .to_string())
    );
}

fn screened(path: &str, reasons: &[&str], fails_tail: bool) -> Screened {
    Screened {
        path: path.into(),
        valid: reasons.is_empty(),
        reasons: reasons.iter().map(|r| r.to_string()).collect(),
        failures: 3,
        requests: 97,
        fails_tail,
    }
}

#[test]
fn flagged_runs_are_refused_unless_allowed() {
    let tail = Tail { limit_percent: "0.010".into(), quantile: "p99.9".into() };
    let clean = Screening::new(&vec![screened("a", &[], false)], &tail);
    assert!(clean.is_clean());
    assert_eq!(clean.enforce(false), Ok(()));

    let runs = vec![
        screened("a", &["clock stepped", "no requests"], false),
        screened("b", &[], true),
    ];
    let screening = Screening::new(&runs, &tail);
    assert_eq!(screening.invalid, ["a: clock stepped; no requests"]);
    assert_eq!(
        screening.tail_failures,
        ["b: 3 of 100 requests failed, more than 0.010% for the p99.9 tail"]
    );
    assert!(!screening.is_clean());
    assert_eq!(screening.enforce(true), Ok(()));
    assert_eq!(
        screening.enforce(false),
        Err("1 input run(s) are invalid; rerun them or pass --allow-invalid".to_string())
    );
    let screening = Screening::new(&vec![screened("b", &[], true)], &tail);
    assert_eq!(
        screening.enforce(false),
        Err("1 input run(s) failed too many requests for the highest quantile; compare fewer \
             quantiles, rerun them or pass --allow-invalid"
            .to_string())
    );
}

#[test]
fn the_title_counts_the_runs_of_each_arm() {
    let a = vec!["direct-P".to_string(), "direct-P".to_string()];
    let b = vec!["floor-P".to_string()];
    assert_eq!(
        title("stream", &a, &b, false),
        "compare stream: A = direct-P (2 run(s)), B = floor-P (1 run(s))"
    );
    assert_eq!(
        title("stream", &a, &b, true),
        "compare stream: A = direct-P (2 run(s)), B = floor-P (1 run(s))  [includes INVALID runs \
         or runs failing too often for the tail]"
    );
}

#[test]
fn the_baseline_is_judged_by_its_metrics() {
    let judged = |metric, within| Judged { metric, within };
    let both = vec![
        judged(Metric::Ttft, true),
        judged(Metric::ChunkLatency, true),
        judged(Metric::EmitLag, false),
    ];
    assert_eq!(baseline_holds(&both, None), Ok(true));
    assert_eq!(baseline_holds(&both, Some(&vec![Metric::EmitLag])), Ok(false));
    assert_eq!(baseline_holds(&both, Some(&vec![Metric::Ttft])), Ok(true));
    assert_eq!(
        baseline_holds(&both, Some(&vec![Metric::Ttft, Metric::RequestLatency])),
        Err(Metric::RequestLatency)
    );
    let whole = vec![judged(Metric::RequestLatency, false)];
    assert_eq!(baseline_holds(&whole, None), Ok(false));
    let late = vec![judged(Metric::ChunkLatency, false), judged(Metric::EmitLag, true)];
    assert_eq!(baseline_holds(&late, None), Ok(false));
}
