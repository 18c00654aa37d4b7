use relay::claims::{areas, conflict, edited, end, fresh, kept_newest_first, section, warn_once, Claim};
use relay::json::Json;
use relay::spool::Event;
use relay::collide::{render, with_sessions, Overlap};
use relay::time::iso;

const LIVE: u64 = 2 * 3600;

fn now_secs() -> u64 {
    std::time::SystemTime::now().duration_since(std::time::UNIX_EPOCH).unwrap().as_secs()
}

fn claim(session: &str, updated: u64, files: &[&str]) -> Claim {
    let mut fs: Vec<(String, String)> = files.iter().map(|f| ((*f).to_string(), iso(updated))).collect();
    fs.sort();
    Claim {
        session: session.into(),
        harness: "code-agent".into(),
        label: "fix the filters".into(),
        updated: iso(updated),
        files: fs,
        ..Claim::default()
    }
}

#[test]
fn files_group_into_areas() {
    let files = ["apps/backstage/a.tsx", "apps/backstage/src/b.tsx", "README.md", "src/x.rs"];
    assert_eq!(areas(&files), ["apps/backstage/**", "README.md", "src/x.rs"]);
    assert_eq!(areas(&["a.md", "b.md"]), ["a.md", "b.md"]);
}

#[test]
fn only_a_live_other_session_conflicts() {
    let now = now_secs();
    let claims = vec![
        claim("mine-1234", now, &["src/a.rs"]),
        claim("other-5678", now - 300, &["src/a.rs"]),
        claim("stale-9999", now - LIVE - 60, &["src/b.rs"]),
    ];
    let (c, when) = conflict(&claims, "mine-1234", "src/a.rs", now).unwrap();
    assert_eq!((claims[c].session.as_str(), when.as_str()), ("other-5678", "5 min ago"));
    assert!(conflict(&claims, "mine-1234", "src/b.rs", now).is_none(), "stale claims do not block");
    let mut ended = claims[1].copy();
    ended.ended = true;
    assert!(conflict(&[ended], "mine-1234", "src/a.rs", now).is_none());
}

#[test]
fn the_brief_names_live_sessions_and_who_owns_dirty_files() {
    let now = now_secs();
    let mut done = claim("done-0000", now - 7200 * 3, &["docs/plan.md"]);
    done.ended = true;
    let claims = vec![
        claim("mine-1234", now, &["src/a.rs"]),
        claim("other-5678", now - 120, &["apps/backstage/a.tsx", "apps/backstage/b.tsx"]),
        done,
    ];
    let dirty = vec!["apps/backstage/a.tsx".into(), "docs/plan.md".into(), "src/a.rs".into()];
    let out = section(&claims, &dirty, Some("mine-1234"), now);
    assert!(
        out.contains(
            "- other-56 (code-agent, \"fix the filters\"), last edit 2 min ago: editing apps/backstage/**; uncommitted: apps/backstage/a.tsx\n"
        ),
        "{out}"
    );
    assert!(
        out.contains("- done-000 (code-agent, \"fix the filters\"), ended 6 h ago; uncommitted: docs/plan.md\n"),
        "{out}"
    );
    assert!(!out.contains("mine-123"), "{out}");
    assert_eq!(section(&claims[..1], &dirty, Some("mine-1234"), now), "");
}

#[test]
fn a_warning_is_given_once() {
    let now = now_secs();
    let claims = vec![claim("other-5678", now - 60, &["src/a.rs"])];
    let mut mine = claim("mine-1234", now, &[]);
    let w = warn_once(&claims, &mut mine, "mine-1234", "src/a.rs", now).unwrap();
    assert!(w.starts_with("relay: session other-56 (code-agent, \"fix the filters\") edited src/a.rs 1 min ago"), "{w}");
    assert_eq!(mine.warned, ["src/a.rs"]);
    assert!(warn_once(&claims, &mut mine, "mine-1234", "src/a.rs", now).is_none());
}

#[test]
fn an_edit_claims_the_path_and_an_end_frees_the_session() {
    let mut c = claim("s-1", 0, &["b.rs"]);
    c.ended = true;
    edited(&mut c, "a.rs", "2026-01-01T00:00:00Z");
    edited(&mut c, "b.rs", "2026-01-02T00:00:00Z");
    assert_eq!(c.files.iter().map(|(f, _)| f.as_str()).collect::<Vec<_>>(), ["a.rs", "b.rs"]);
    assert_eq!(c.files[1].1, "2026-01-02T00:00:00Z");
    assert_eq!(c.updated, "2026-01-02T00:00:00Z");
    assert!(!c.ended);
    assert!(end(&mut c));
    assert!(!end(&mut c));
}

#[test]
fn overlaps_come_with_an_order() {
    let sessions = vec![Overlap { who: "session ab12 (live)".into(), files: vec!["src/a.ts".into()] }];
    let branches = vec![
        Overlap { who: "branch small".into(), files: vec!["src/b.ts".into()] },
        Overlap { who: "branch big".into(), files: vec!["src/a.ts".into(), "src/b.ts".into()] },
    ];
    let out = render(&sessions, &branches);
    assert!(
        out.contains("- session ab12 (live) is on src/a.ts\n- branch big changes src/a.ts, src/b.ts\n- branch small"),
        "{out}"
    );
    assert!(out.contains("_Order: merge big, then small first; let the sessions above"), "{out}");
    assert_eq!(render(&[], &[]), "");
}

#[test]
fn a_live_claim_on_a_likely_file_is_in_the_way() {
    let now = now_secs();
    let claim = Claim {
        session: "sess-9999".into(),
        updated: iso(now),
        files: vec![("src/a.ts".to_string(), iso(now))],
        ..Claim::default()
    };
    let got = with_sessions(&[claim], &["src/a.ts".into(), "src/z.ts".into()], now);
    assert_eq!(got, [Overlap { who: "session sess-999 (live)".into(), files: vec!["src/a.ts".into()] }]);
}

fn ev(event: &str, key: &str, value: &str) -> Event {
    let data = Json::Object(vec![(key.to_string(), Json::Str(value.to_string()))]);
    Event { ts: "2026-09-22T10:00:00Z".into(), session: "s".into(), event: event.into(), key: event.into(), data }
}

#[test]
fn a_new_claim_is_named_from_its_spool() {
    let events = [
        ev("tool", "file", "x"),
        ev("session_start", "harness", "code-agent"),
        ev("prompt", "text", "fix   the\nfilters please"),
        ev("prompt", "text", "later ask"),
    ];
    let c = fresh("sess-1234", &events, "2026-09-22T10:00:00Z");
    assert_eq!(c.harness, "code-agent");
    assert_eq!(c.label, "fix the filters please");
    assert_eq!(c.updated, "2026-09-22T10:00:00Z");
    assert!(!c.ended && c.files.is_empty() && c.warned.is_empty());
    let bare = fresh("s", &[], "t");
    assert_eq!((bare.harness.as_str(), bare.label.as_str()), ("", ""));
}

#[test]
fn old_claims_are_dropped_and_the_rest_listed_newest_first() {
    let cs = vec![claim("a", 100, &[]), claim("b", 300, &[]), claim("c", 50, &[]), claim("d", 200, &[])];
    let got: Vec<String> = kept_newest_first(&cs, &iso(100)).into_iter().map(|c| c.session).collect();
    assert_eq!(got, vec!["b", "d", "a"]);
}
