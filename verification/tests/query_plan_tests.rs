use lsm5::query_plan::{CostLevel, ScanPlan};

#[test]
fn test_scan_plan_display() {
    let plan = ScanPlan::new(b"a", b"z")
        .with_levels(vec![0, 1])
        .with_estimated_keys(1000)
        .with_cost(CostLevel::Medium);
    let output = plan.describe();
    assert!(output.contains("a"));
    assert!(output.contains("z"));
    assert!(output.contains("1000"));
}

#[test]
fn scan_plan_full_text() {
    let plan = ScanPlan::new(b"a", b"z")
        .with_levels(vec![0, 1])
        .with_estimated_keys(1000)
        .with_cost(CostLevel::High);
    assert_eq!(
        plan.describe(),
        "Scan Plan:\n  Range: [a, z]\n  Estimated keys: 1000\n  Levels to scan: [0, 1]\n  Bloom filter: true\n  Index: true\n  Cost: High\n"
    );
}

#[test]
fn scan_plan_defaults_and_invalid_utf8() {
    let plan = ScanPlan::new(&[0x66, 0xFF], b"");
    assert_eq!(plan.estimated_keys, 0);
    assert!(plan.levels_to_scan.is_empty());
    assert_eq!(plan.cost, CostLevel::Medium);
    assert_eq!(
        plan.describe(),
        "Scan Plan:\n  Range: [f\u{FFFD}, ]\n  Estimated keys: 0\n  Levels to scan: []\n  Bloom filter: true\n  Index: true\n  Cost: Medium\n"
    );
}
