use lsm5::stats::DbStats;

#[test]
fn db_stats_aggregates() {
    let s = DbStats::with_metrics(3, 40, vec![2, 0, 1], vec![100, 0, 250], 5, 6, 1, 0);
    assert_eq!(s.total_sstables(), 3);
    assert_eq!(s.total_size_bytes(), 350);
    assert_eq!(s.active_level_count(), 2);
    assert_eq!(s.max_level_size(), 250);
    assert!(s.is_compaction_needed(2, 200));
    assert!(!s.is_compaction_needed(0, 100));
    assert!(!s.is_compaction_needed(7, 0));
}

#[test]
fn db_stats_new_and_counters() {
    let mut s = DbStats::new(1, 2, vec![], vec![]);
    assert_eq!(s.reads, 0);
    assert_eq!(s.max_level_size(), 0);
    s.increment_reads();
    s.increment_writes();
    s.increment_writes();
    s.increment_flushes();
    s.increment_compactions();
    assert_eq!((s.reads, s.writes, s.flushes, s.compactions), (1, 2, 1, 1));
}

#[test]
fn db_stats_text() {
    let s = DbStats::with_metrics(3, 40, vec![2, 0, 1], vec![100, 0, 250], 5, 6, 1, 0);
    assert_eq!(
        s.describe(),
        "=== LSM5 Database Statistics ===\nMemTable: 3 entries, 40 bytes\n  L0: 2 SSTables, 100 bytes\n  L2: 1 SSTables, 250 bytes\n\nOperations:\n  Reads:     5\n  Writes:    6\n  Flushes:   1\n  Compactions: 0\n"
    );
}
