use pumpkin_cluster::metrics::{ClusterMetrics, SLOW_FUSE_LOG_COOLDOWN_MILLIS};

#[test]
fn counters_accumulate() {
    let mut metrics = ClusterMetrics::new();
    metrics.record_sent(3);
    metrics.record_dropped(1);
    metrics.set_accepts_outstanding(7);
    metrics.record_fuse_lag_warning();
    let snapshot = metrics.snapshot();
    assert_eq!(snapshot.updates_sent, 3);
    assert_eq!(snapshot.updates_dropped, 1);
    assert_eq!(snapshot.accepts_outstanding, 7);
    assert_eq!(snapshot.fuse_lag_warnings, 1);
}

#[test]
fn slow_fuse_log_has_cooldown() {
    let mut metrics = ClusterMetrics::new();
    assert!(metrics.should_log_slow_fuse(SLOW_FUSE_LOG_COOLDOWN_MILLIS));
    assert!(!metrics.should_log_slow_fuse(SLOW_FUSE_LOG_COOLDOWN_MILLIS + 1));
    assert!(metrics.should_log_slow_fuse(2 * SLOW_FUSE_LOG_COOLDOWN_MILLIS));
}

#[test]
fn slow_fuse_log_suppresses_within_cooldown() {
    let mut metrics = ClusterMetrics::new();
    assert!(!metrics.should_log_slow_fuse(0));
    assert!(!metrics.should_log_slow_fuse(SLOW_FUSE_LOG_COOLDOWN_MILLIS - 1));
}
