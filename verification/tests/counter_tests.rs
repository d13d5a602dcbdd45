use wifi_exporter::counter::{FailureCounter, FAILURE_THRESHOLD};

#[test]
fn five_consecutive_failures_terminate_on_the_fifth() {
    let mut counter = FailureCounter::new();
    assert!(!counter.record_failure());
    assert!(!counter.record_failure());
    assert!(!counter.record_failure());
    assert!(!counter.record_failure());
    assert!(counter.record_failure());
    assert_eq!(counter.count(), FAILURE_THRESHOLD);
}

#[test]
fn success_after_four_failures_resets_the_counter() {
    let mut counter = FailureCounter::new();
    for _ in 0..4 {
        assert!(!counter.record_failure());
    }
    counter.record_success();
    assert_eq!(counter.count(), 1);
    // From the baseline the process keeps running: further successes keep
    // the baseline, and fewer than four consecutive failures stay non-fatal.
    counter.record_success();
    assert_eq!(counter.count(), 1);
    assert!(!counter.record_failure());
    assert!(!counter.record_failure());
    assert!(!counter.record_failure());
    counter.record_success();
    assert_eq!(counter.count(), 1);
}

#[test]
fn fresh_counter_starts_at_zero() {
    let counter = FailureCounter::new();
    assert_eq!(counter.count(), 0);
}
