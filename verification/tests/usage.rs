use relay::fmt::est_tokens;
use relay::json::Json;
use relay::scoreboard::{tally, Read};
use relay::spool::Event;
use relay::usage::{is_edit, median, of, response_tokens, SessionUsage};

fn s(v: &str) -> Json {
    Json::Str(v.to_string())
}

fn obj(pairs: Vec<(&str, Json)>) -> Json {
    Json::Object(pairs.into_iter().map(|(k, v)| (k.to_string(), v)).collect())
}

fn ev(event: &str, data: Json) -> Event {
    Event::new("s", event, None, data)
}

#[test]
fn orientation_stops_at_the_first_edit() {
    let events = vec![
        ev("session_start", obj(vec![("brief_tokens", Json::Uint(300))])),
        ev("tool", obj(vec![("tool", s("Read")), ("tokens", Json::Uint(1000))])),
        ev("tool", obj(vec![("tool", s("Bash")), ("tokens", Json::Uint(200))])),
        ev("tool", obj(vec![("tool", s("Edit")), ("file", s("a.rs"))])),
        ev("tool", obj(vec![("tool", s("Read")), ("tokens", Json::Uint(50))])),
    ];
    let u = of(&events);
    assert_eq!(u, SessionUsage { brief_tokens: Some(300), tool_tokens: 1250, orientation_tokens: 1200, edited: true });
}

#[test]
fn counts_every_string_in_a_response() {
    let r = obj(vec![
        ("file", obj(vec![("content", s("hello world")), ("numLines", Json::Uint(1))])),
        ("extra", Json::Array(vec![s("hello world")])),
    ]);
    assert_eq!(response_tokens(&r), 2 * est_tokens("hello world"));
}

#[test]
fn median_of_empty_is_none() {
    assert_eq!(median(vec![]), None);
    assert_eq!(median(vec![5, 1, 9]), Some(5));
}

#[test]
fn the_upper_middle_of_an_even_count() {
    assert_eq!(median(vec![4, 1, 3, 2]), Some(3));
}

#[test]
fn edit_tools_are_the_ones_that_change_files() {
    assert!(is_edit("Edit") && is_edit("Write") && is_edit("MultiEdit") && is_edit("NotebookEdit"));
    assert!(!is_edit("Read") && !is_edit("edit"));
}

#[test]
fn each_subagent_gets_its_own_line() {
    let events = vec![
        ev("session_start", obj(vec![("harness", s("code-agent")), ("transcript_path", s("/t/s.jsonl"))])),
        ev("prompt", obj(vec![("text", s("implement\nT-253"))])),
        ev("tool", obj(vec![("tool", s("Read")), ("file", s("/r/plan.md")), ("tokens", Json::Uint(9000))])),
        ev("subagent_start", obj(vec![("agent", s("a1")), ("type", s("Explore"))])),
        ev("tool", obj(vec![("tool", s("Read")), ("file", s("/r/a.rs")), ("tokens", Json::Uint(400)), ("agent", s("a1"))])),
        ev("tool", obj(vec![("tool", s("Bash")), ("tokens", Json::Uint(100)), ("agent", s("a1"))])),
        ev(
            "read_guarded",
            obj(vec![("file", s("docs/plan.md")), ("tokens", Json::Uint(90_000)), ("shown", Json::Uint(2000)), ("agent", s("a1"))]),
        ),
        ev("subagent_stop", obj(vec![("agent", s("a1")), ("type", s("Explore")), ("transcript_path", s("/t/sub/a1.jsonl"))])),
    ];
    let t = tally("s", &events);
    assert_eq!((t.harness.as_str(), t.label.as_str()), ("code-agent", "implement T-253"));
    assert_eq!(t.agents.len(), 2);
    assert_eq!((t.agents[0].tool_tokens, t.agents[0].transcript.as_deref()), (9000, Some("/t/s.jsonl")));
    let sub = &t.agents[1];
    assert_eq!((sub.kind.as_str(), sub.tool_tokens, sub.calls), ("Explore", 500, 2));
    assert_eq!(sub.transcript.as_deref(), Some("/t/sub/a1.jsonl"));
    assert_eq!(t.reads[1], Read { file: "/r/a.rs".into(), tokens: 400, agent: "a1".into() });
    assert_eq!(t.guarded, [(90_000, 2000)]);
}
