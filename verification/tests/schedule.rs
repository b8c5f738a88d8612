use auto_commit::schedule::{elapsed, is_due};

#[test]
fn elapsed_is_the_difference_of_the_readings() {
    assert_eq!(elapsed(100, 350), 250);
    assert_eq!(elapsed(0, u64::MAX), u64::MAX);
    assert_eq!(elapsed(5, 5), 0);
}

#[test]
fn elapsed_is_zero_when_the_clock_reads_earlier() {
    assert_eq!(elapsed(350, 100), 0);
    assert_eq!(elapsed(u64::MAX, 0), 0);
}

#[test]
fn nothing_is_due_before_the_interval_has_run_out() {
    assert!(!is_due(1000, 1000, 2000));
    assert!(!is_due(1000, 2999, 2000));
    assert!(!is_due(3000, 1000, 2000));
}

#[test]
fn the_boundary_itself_is_due() {
    assert!(is_due(1000, 3000, 2000));
    assert!(is_due(1000, 3001, 2000));
    assert!(is_due(0, u64::MAX, u64::MAX));
}

#[test]
fn a_zero_interval_is_always_due() {
    assert!(is_due(7, 7, 0));
    assert!(is_due(9, 7, 0));
}
