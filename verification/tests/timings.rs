use std::time::Duration;

use relay::timings::{self, summarize, Group, Stat};

#[test]
fn p95_and_max_per_group_within_the_window() {
    let mut text = String::from("2026-09-01T00:00:00Z PreToolUse 900000\n");
    for i in 1..=100 {
        text.push_str(&format!("2026-09-22T10:00:00Z PostToolUse {}\n", i * 1000));
    }
    text.push_str("2026-09-22T10:00:00Z SessionEnd 300000\nnot a line\n");
    let stats = summarize(&text, "2026-09-15T00:00:00Z");
    assert_eq!(
        stats[0],
        Stat { group: Group::PerCall, calls: 100, p95: Duration::from_millis(95), max: Duration::from_millis(100) }
    );
    assert_eq!((stats[1].group, stats[1].calls), (Group::SessionEnd, 1));
    assert_eq!(stats.len(), 2, "the old PreToolUse is outside the window");
}

#[test]
fn a_written_line_reads_back() {
    let l = timings::line("2026-09-22T10:00:00Z", "SessionStart", 1234);
    assert_eq!(l, "2026-09-22T10:00:00Z SessionStart 1234");
    let stats = summarize(&format!("{l}\n"), "2026-01-01T00:00:00Z");
    assert_eq!(
        stats,
        [Stat { group: Group::SessionStart, calls: 1, p95: Duration::from_micros(1234), max: Duration::from_micros(1234) }]
    );
}

#[test]
fn budgets_and_groups() {
    assert_eq!(Group::PerCall.budget(), Duration::from_millis(50));
    assert_eq!(Group::SessionEnd.budget(), Duration::from_secs(2));
    assert_eq!(Group::of("PreCompact"), Some(Group::SessionEnd));
    assert_eq!(Group::of("Notification"), None);
}

#[test]
fn numbers_parse_as_rust_does() {
    let text = "2026-09-22T10:00:00Z Stop +7\n2026-09-22T10:00:00Z Stop 18446744073709551616\n2026-09-22T10:00:00Z Stop -1\n2026-09-22T10:00:00Z Stop 3 extra\n";
    let stats = summarize(text, "");
    assert_eq!(stats, [Stat { group: Group::PerCall, calls: 2, p95: Duration::from_micros(7), max: Duration::from_micros(7) }]);
}
