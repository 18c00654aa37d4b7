use relay::budget::{board_file, Board};
use relay::limits::WARN_EVERY;

#[test]
fn warns_once_per_step_and_files_the_cost_under_the_task() {
    let mut b = Board::new();
    b.asked("implement T-253 and check T-241");
    assert_eq!(b.add("a1", Some("Explore"), WARN_EVERY - 10), None);
    let note = b.add("a1", None, 20).unwrap();
    assert!(note.starts_with("relay: This subagent has taken in ~150.0k tokens"), "{note}");
    assert_eq!(b.add("a1", None, 100), None, "once per step");
    assert!(b.add("", None, 2 * WARN_EVERY).unwrap().contains("This session has taken in ~300.0k"));

    let mut h = b.close("s", Some("a1"), "2026-09-22T10:00:00Z");
    h.extend(b.close("s", None, "2026-09-22T10:00:00Z"));
    assert_eq!(h.len(), 2);
    assert_eq!((h[0].agent.as_str(), h[0].kind.as_str(), h[0].tokens), ("a1", "Explore", WARN_EVERY + 110));
    assert_eq!(h[1].tasks, ["T-241", "T-253"]);
    assert!(b.agents.is_empty(), "a closed session leaves no counter");
}

#[test]
fn nothing_added_changes_nothing() {
    let mut b = Board::new();
    assert_eq!(b.add("a", None, 0), None);
    assert!(b.agents.is_empty());
    b.asked("no ids here, t-1 is lower case");
    assert!(b.tasks.is_empty());
    assert!(b.close("s", Some("ghost"), "t").is_empty());
}

#[test]
fn board_files_have_safe_names() {
    assert_eq!(board_file("/l", "a/b c-d_e"), "/l/budget/a_b_c-d_e.json");
}
