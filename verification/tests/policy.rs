use dwm_monitor::policy::is_violation;

#[test]
fn equal_usage_is_no_violation() {
    assert!(!is_violation(1_048_576_000, 1_048_576_000));
    assert!(!is_violation(0, 0));
    assert!(!is_violation(u64::MAX, u64::MAX));
}

#[test]
fn usage_below_threshold_is_no_violation() {
    assert!(!is_violation(0, 1));
    assert!(!is_violation(999, 1000));
    assert!(!is_violation(0, u64::MAX));
}

#[test]
fn usage_above_threshold_is_violation() {
    assert!(is_violation(1, 0));
    assert!(is_violation(1_048_576_001, 1_048_576_000));
    assert!(is_violation(u64::MAX, u64::MAX - 1));
}
