use relay::log::{entry, is_full, newest_half};

#[test]
fn a_full_log_keeps_its_newest_half() {
    assert_eq!(newest_half("1\n2\n3\n4\n"), "3\n4\n");
}

#[test]
fn an_odd_log_keeps_the_larger_newer_half() {
    assert_eq!(newest_half("1\n2\n3\n"), "2\n3\n");
    assert_eq!(newest_half(""), "\n");
}

#[test]
fn a_failure_is_one_line() {
    assert_eq!(entry("2026-09-22T10:00:00Z", "hook failed:\nno such file"), "2026-09-22T10:00:00Z hook failed: no such file\n");
}

#[test]
fn only_a_log_past_its_size_is_cut() {
    assert!(!is_full(0));
    assert!(is_full(u64::MAX));
}
