use matchstick::stats::LatencyStats;

#[test]
fn recording_grows_the_add_count() {
    let mut stats = LatencyStats::new();
    assert_eq!(stats.add_count(), 0);
    stats.record_add(1500);
    stats.record_add(2500);
    assert_eq!(stats.add_count(), 2);
    stats.record_cancel(100);
    stats.record_match(100);
    assert_eq!(stats.add_count(), 2);
}

#[test]
fn percentiles_reflect_recorded_values() {
    let mut stats = LatencyStats::new();
    for _ in 0..95 {
        stats.record_add(1_000);
    }
    for _ in 0..5 {
        stats.record_add(1_000_000);
    }
    let summary = stats.get_stats();
    // Three significant figures: the sketch answers within a tenth of
    // a percent of the true values.
    assert!(summary.add_order.p50 >= 999 && summary.add_order.p50 <= 1_001);
    assert!(summary.add_order.p99 >= 999_000 && summary.add_order.p99 <= 1_001_000);
    assert!(summary.add_order.p50 <= summary.add_order.p95);
    assert!(summary.add_order.p95 <= summary.add_order.p99);
    // Untouched sketches report zero.
    assert_eq!(summary.cancel_order.p50, 0);
    assert_eq!(summary.match_order.p99, 0);
}

#[test]
fn default_is_empty() {
    let stats = LatencyStats::default();
    assert_eq!(stats.add_count(), 0);
}

#[test]
fn fresh_recorder_reports_all_zeros() {
    let stats = LatencyStats::new();
    let summary = stats.get_stats();
    for report in [summary.add_order, summary.cancel_order, summary.match_order] {
        assert_eq!(report.p50, 0);
        assert_eq!(report.p95, 0);
        assert_eq!(report.p99, 0);
    }
}

#[test]
fn summaries_are_stable_between_recordings() {
    let mut stats = LatencyStats::new();
    stats.record_add(1_000);
    stats.record_add(2_000);
    stats.record_cancel(3_000);
    let first = stats.get_stats();
    let second = stats.get_stats();
    assert_eq!(first, second);
}
