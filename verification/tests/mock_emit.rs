use std::time::Duration;

use brisk_bench::mock::emit::{
    duration_ns, EmitPolicy, EmitSettings, DEFAULT_COMMIT_WINDOW_US,
};

#[test]
fn commit_window_follows_the_policy() {
    let settings = |policy, commit_us| EmitSettings {
        policy,
        spin_window: Duration::from_micros(50),
        commit_window: Duration::from_micros(commit_us),
    };
    assert_eq!(settings(EmitPolicy::FullSpin, 5).commit_window_ns(), 50_000);
    assert_eq!(settings(EmitPolicy::Fixed, 5).commit_window_ns(), 5_000);
    assert_eq!(settings(EmitPolicy::Fixed, 20).commit_window_ns(), 20_000);
    assert_eq!(settings(EmitPolicy::Fixed, 80).commit_window_ns(), 50_000);
    assert_eq!(settings(EmitPolicy::Fixed, 0).commit_window_ns(), 0);
    assert_eq!(settings(EmitPolicy::Fixed, 5).spin_window_ns(), 50_000);
    let huge = EmitSettings {
        policy: EmitPolicy::FullSpin,
        spin_window: Duration::MAX,
        commit_window: Duration::MAX,
    };
    assert_eq!(huge.commit_window_ns(), u64::MAX);
}

#[test]
fn policy_names_match_the_command_line() {
    for (policy, name) in [
        (EmitPolicy::FullSpin, "full-spin"),
        (EmitPolicy::Fixed, "fixed"),
    ] {
        assert_eq!(policy.as_str(), name);
    }
    assert_eq!(EmitPolicy::default(), EmitPolicy::Fixed);
}

#[test]
fn durations_saturate_at_the_end_of_time() {
    assert_eq!(duration_ns(Duration::new(3, 7)), 3_000_000_007);
    assert_eq!(duration_ns(Duration::from_nanos(u64::MAX)), u64::MAX);
    assert_eq!(duration_ns(Duration::MAX), u64::MAX);
    assert_eq!(DEFAULT_COMMIT_WINDOW_US, 10);
}
