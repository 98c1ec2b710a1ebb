use neuron_wire::apoptosis::{
    should_evict, ApoptosisReport, ApoptosisSystem, DEATH_SPIRAL_THRESHOLD, MAX_FAILURES,
    MAX_LATENCY_MS, MAX_STALE_SECS, PENDING_PING_TIMEOUT_S, SWEEP_INTERVAL_TICKS,
};

#[test]
fn test_apoptosis_report_default() {
    let r = ApoptosisReport::default();
    assert_eq!(r.total_deaths, 0);
}

#[test]
fn test_apoptosis_system_new() {
    let sys = ApoptosisSystem::new();
    assert_eq!(sys.cumulative_deaths, 0);
    assert_eq!(sys.peak_deaths_per_sweep, 0);
}

#[test]
fn test_death_spiral_threshold() {
    let sys = ApoptosisSystem::new();
    let r = ApoptosisReport {
        total_deaths: 51,
        ..Default::default()
    };
    assert!(sys.is_death_spiral(&r));
    let r = ApoptosisReport {
        total_deaths: 50,
        ..Default::default()
    };
    assert!(!sys.is_death_spiral(&r));
}

#[test]
fn test_skip_if_not_due() {
    let _sys = ApoptosisSystem::new();
    assert_eq!(SWEEP_INTERVAL_TICKS, 1000);
}

#[test]
#[allow(clippy::assertions_on_constants)]
fn test_constants_sanity() {
    assert!(MAX_LATENCY_MS > 0);
    assert!(MAX_STALE_SECS >= PENDING_PING_TIMEOUT_S);
    assert!(MAX_FAILURES >= 1);
}

#[test]
fn sweeps_run_once_per_interval_and_accumulate() {
    let mut sys = ApoptosisSystem::new();
    assert!(!sys.begin_sweep(999));
    assert!(sys.begin_sweep(1000));
    let r = sys.finish_sweep(2, 3, 4, 7);
    assert_eq!(r.total_deaths, 9);
    assert_eq!(r.sweep_duration_ms, 7);
    assert!(!sys.begin_sweep(1500));
    assert!(sys.begin_sweep(2000));
    let r2 = sys.finish_sweep(1, 0, 0, 1);
    assert_eq!(r2.total_deaths, 1);
    assert_eq!(sys.cumulative_deaths, 10);
    assert_eq!(sys.peak_deaths_per_sweep, 9);
    assert_eq!(DEATH_SPIRAL_THRESHOLD, 50);
}

#[test]
fn eviction_rule() {
    assert!(should_evict(3, false, false));
    assert!(!should_evict(2, false, false));
    assert!(should_evict(0, true, false));
    assert!(should_evict(0, false, true));
}
