use relay::json::Json;
use relay::paths::Paths;
use relay::spool::{current_session, file_for, safe, unique_events, wrappers, Event};

fn ev(event: &str, key: &str, wrapper: Option<&str>) -> Event {
    let data = match wrapper {
        Some(w) => Json::Object(vec![("wrapper".to_string(), Json::Str(w.to_string()))]),
        None => Json::Null,
    };
    Event { ts: "2026-09-22T10:00:00Z".into(), session: "s".into(), event: event.into(), key: key.into(), data }
}

#[test]
fn an_event_recorded_twice_counts_once() {
    let got = unique_events(vec![ev("tool", "a", None), ev("prompt", "b", None), ev("tool", "a", None), ev("stop", "c", None)]);
    let keys: Vec<String> = got.iter().map(|e| format!("{}:{}", e.event, e.key)).collect();
    assert_eq!(keys, vec!["tool:a", "prompt:b", "stop:c"]);
}

#[test]
fn the_wrapper_is_named_by_session_start() {
    let evs = vec![ev("session_start", "1", Some("w1")), ev("tool", "2", Some("nope")), ev("session_start", "3", None)];
    assert_eq!(wrappers(&evs), vec!["w1"]);
}

#[test]
fn session_files_have_safe_names() {
    assert_eq!(safe("a/b c-d_e"), "a_b_c-d_e");
    let p = Paths { root: "/r".into(), shared: "/r/.relay".into(), local: "/r/.git/relay".into(), in_git: true };
    assert_eq!(file_for(&p, "s:1"), "/r/.git/relay/spool/s_1.jsonl");
    assert_eq!(current_session(" abc \n"), Some("abc".to_string()));
    assert_eq!(current_session("  \n"), None);
}
