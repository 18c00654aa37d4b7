use relay::audit::findings::{same_command, Kind, Status};
use relay::audit::{newest, report, select, Collector, Cost, HookError, Now, Origin, Report, SessionAudit, Transcript, FIXED_OVERHEAD};
use relay::fmt::est_tokens;
use relay::usage::ApiUsage;

fn resent_of(a: &SessionAudit, k: &str) -> usize {
    a.costs.iter().find(|c| c.source == k).unwrap().resent
}

#[test]
fn audit_compaction_stops_charging_what_came_before() {
    let mut col = Collector::default();
    col.add("old", Origin::Work, "some words here");
    col.call(100, 0, 1);
    col.call(100, 0, 1);
    col.compacted();
    col.add("new", Origin::Work, "some words here");
    col.call(100, 0, 1);
    let a = col.finish().unwrap();
    assert_eq!(resent_of(&a, "old"), resent_of(&a, "new") * 2);
}

#[test]
fn mod_compaction_stops_charging_what_came_before() {
    let mut col = Collector::default();
    col.add("old", Origin::Work, "some words here");
    col.call(100, 0, 1);
    col.call(100, 0, 1);
    col.compacted();
    col.add("new", Origin::Work, "some words here");
    col.call(100, 0, 1);
    let a = col.finish().unwrap();
    assert_eq!(resent_of(&a, "old"), resent_of(&a, "new") * 2);
}

fn percent(r: &Report, n: usize) -> f64 {
    if r.context_sent == 0 { 0.0 } else { n as f64 * 100.0 / r.context_sent as f64 }
}

#[test]
fn report_splits_what_was_sent_by_origin() {
    let cost = |origin: Origin, resent| Cost { source: format!("{origin:?}"), origin, items: 1, tokens: 1, resent };
    let r = Report {
        context_sent: 1000,
        costs: vec![cost(Origin::Work, 500), cost(Origin::Config, 200), cost(Origin::Harness, 100)],
        ..Report::default()
    };
    assert_eq!((r.spent_by(Origin::Work), r.spent_by(Origin::Config)), (500, 200));
    assert_eq!(r.unexplained(), 200);
    assert!((percent(&r, 250) - 25.0).abs() < f64::EPSILON);
    assert!(percent(&Report::default(), 5).abs() < f64::EPSILON);
}

#[test]
fn first_call_beyond_known_blocks_is_fixed_overhead() {
    let mut col = Collector::default();
    col.add("prompt", Origin::Work, "some words here");
    let known = est_tokens("some words here");
    col.call(1000, 0, 1);
    col.call(1100, 0, 1);
    let a = col.finish().unwrap();
    let fixed = a.costs.iter().find(|c| c.source == FIXED_OVERHEAD).unwrap();
    assert_eq!((fixed.tokens, fixed.resent), (1000 - known, (1000 - known) * 2));
}

#[test]
fn a_session_without_calls_has_no_audit() {
    let mut col = Collector::default();
    col.add("prompt", Origin::Work, "words");
    assert!(col.finish().is_none());
}

#[test]
fn pinned_blocks_outlive_compaction_and_listings_keep_their_count() {
    let mut col = Collector::default();
    col.add_pinned("system", Origin::Harness, "abcd");
    col.add_listing("Skills listing", Origin::Config, "abcdefgh", 7);
    col.call(3, 0, 1);
    col.compacted();
    col.call(10, 0, 1);
    col.hook_error("hook a", "failed");
    col.hook_error("hook a", "failed");
    let a = col.finish().unwrap();
    assert_eq!(resent_of(&a, "system"), 2);
    assert_eq!(resent_of(&a, "Skills listing"), 2);
    assert_eq!(a.costs.iter().find(|c| c.source == "Skills listing").unwrap().items, 7);
    assert_eq!(a.hook_errors.len(), 1);
    assert_eq!(a.hook_errors[0].count, 2);
    assert!(a.costs.iter().all(|c| c.source != FIXED_OVERHEAD));
}

fn cost(source: &str, origin: Origin, items: usize, resent: usize) -> Cost {
    Cost { source: source.into(), origin, items, tokens: 10 * items, resent }
}

fn session(costs: Vec<Cost>, hook_errors: Vec<HookError>) -> SessionAudit {
    SessionAudit {
        usage: ApiUsage { calls: 10, context_sent: 1_000_000, ..ApiUsage::default() },
        costs,
        hook_errors,
        ..SessionAudit::default()
    }
}

fn hook_error(command: &str, message: &str) -> HookError {
    HookError { command: command.into(), message: message.into(), count: 1, last_seen: None }
}

#[test]
fn hooks_gone_from_config_are_history() {
    let s = session(vec![], vec![hook_error("old", "gone"), hook_error("live", "broken")]);
    let now = Now { hooks: Some(vec!["live".into()]), ..Now::default() };
    let r = report(vec![s], &now);
    let status: Vec<Status> = r.findings.iter().map(|f| f.status).collect();
    assert_eq!(status, [Status::Active, Status::Gone]);
}

#[test]
fn newest_session_tells_removed_and_reduced_sources() {
    let old = session(
        vec![
            cost("Skills listing", Origin::Config, 300, 50_000),
            cost("Agent types listing", Origin::Config, 27, 40_000),
            cost("Instruction file /nonexistent/AGENTS.md", Origin::Config, 1, 90_000),
        ],
        vec![],
    );
    let newest = session(vec![cost("Skills listing", Origin::Config, 36, 5_000)], vec![]);
    let now = Now { newest: Some(newest), ..Now::default() };
    let r = report(vec![old], &now);
    let by = |k: Kind| r.findings.iter().find(|f| f.kind == k).unwrap();
    assert_eq!(by(Kind::Skills).status, Status::Reduced { now: 36 });
    assert_eq!(by(Kind::Agents).status, Status::Gone);
    assert_eq!(by(Kind::Instructions).status, Status::Gone);
    assert!(!r.findings[0].is_history(), "live findings come first");
}

#[test]
fn live_findings_rank_broken_first_then_by_cost() {
    let s = session(
        vec![
            cost("Skills listing", Origin::Config, 1, 50_000),
            cost("Hook output on UserPromptSubmit: x", Origin::Config, 1, 90_000),
            cost("Tool results: Bash", Origin::Work, 1, 500_000),
            cost("Instruction file ~/AGENTS.md", Origin::Config, 1, 100),
        ],
        vec![hook_error("rtk hook agent", "not found")],
    );
    let r = report(vec![s], &Now::default());
    let kinds: Vec<Kind> = r.findings.iter().map(|f| f.kind).collect();
    assert_eq!(kinds, [Kind::FailingHooks, Kind::HookOutput, Kind::Skills]);
}

#[test]
fn matches_shortened_hook_commands() {
    assert!(same_command("sh -c  'long   command here'", "sh -c 'long…"));
    assert!(!same_command("other", "sh -c 'long…"));
}

#[test]
fn failing_hooks_headline_counts_and_strips_the_status_prefix() {
    let mut h = hook_error("a", "Failed with non-blocking status code: boom");
    h.count = 3;
    let s = session(vec![], vec![h, hook_error("b", "Failed with non-blocking status code: boom")]);
    let r = report(vec![s], &Now::default());
    assert_eq!(r.findings.len(), 1);
    assert_eq!(r.findings[0].headline, "2 hooks failed 4× · boom");
    assert_eq!(r.findings[0].status, Status::Unknown);
}

fn t(id: &str, parent: Option<&str>, started: u64, modified: u64) -> Transcript {
    Transcript { path: format!("/t/{id}"), id: id.into(), parent: parent.map(String::from), started, modified }
}

#[test]
fn selection_takes_the_newest_sessions_and_their_subagents() {
    let all = vec![t("a", None, 1, 10), t("b", None, 2, 30), t("sub-b", Some("b"), 3, 5), t("c", None, 3, 20)];
    let ids: Vec<String> = select(all, 2).into_iter().map(|t| t.id).collect();
    assert_eq!(ids, ["b", "c", "sub-b"]);
}

#[test]
fn the_newest_session_is_the_last_started() {
    let all = vec![t("a", None, 5, 1), t("b", None, 5, 1), t("sub", Some("a"), 9, 1)];
    assert_eq!(newest(&all).unwrap().id, "b");
    assert!(newest(&[t("sub", Some("a"), 9, 1)]).is_none());
}

#[test]
fn reports_add_sessions_up_and_rank_costs() {
    let mut sub = session(vec![cost("Tool results: Read", Origin::Work, 2, 10)], vec![]);
    sub.subagent = true;
    let main = session(vec![cost("Tool results: Read", Origin::Work, 3, 30), cost("Conversation", Origin::Work, 1, 50)], vec![]);
    let r = report(vec![main, sub], &Now::default());
    assert_eq!((r.sessions, r.subagents, r.calls, r.context_sent), (1, 1, 20, 2_000_000));
    assert_eq!(r.subagent_context_sent, 1_000_000);
    let sources: Vec<&str> = r.costs.iter().map(|c| c.source.as_str()).collect();
    assert_eq!(sources, ["Conversation", "Tool results: Read"]);
    assert_eq!((r.costs[1].items, r.costs[1].resent), (5, 40));
}
