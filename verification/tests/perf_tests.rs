use lsm5::perf::PerfStats;

#[test]
fn test_perf_stats() {
    let mut stats = PerfStats::default();
    stats.record_put(50);
    stats.record_put(100);
    assert_eq!(stats.avg_put_us(), 75);
}

#[test]
fn perf_stats_averages() {
    let mut stats = PerfStats::default();
    assert_eq!(stats.avg_get_us(), 0);
    assert_eq!(stats.avg_scan_us(), 0);
    assert_eq!(stats.avg_flush_ms(), 0);
    stats.record_get(10);
    stats.record_get(21);
    stats.record_scan(7);
    stats.record_flush(4500);
    stats.record_flush(1500);
    stats.record_compact(3);
    assert_eq!(stats.avg_get_us(), 15);
    assert_eq!(stats.avg_scan_us(), 7);
    assert_eq!(stats.avg_flush_ms(), 3);
    assert_eq!(stats.compact_count, 1);
}

#[test]
fn perf_stats_summary_text() {
    let mut stats = PerfStats::default();
    stats.record_put(50);
    stats.record_put(100);
    stats.record_flush(2000);
    assert_eq!(
        stats.summary(),
        "Performance Summary:\n  put:   avg 75\u{3bc}s, count 2\n  get:   avg 0\u{3bc}s, count 0\n  scan:  avg 0\u{3bc}s, count 0\n  flush: avg 2ms, count 1"
    );
}
