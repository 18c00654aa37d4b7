use relay::handoff::summary::{files_touched, prompts, Summary};
use relay::json::Json;
use relay::outputs::OutputMeta;
use relay::spool::Event;

fn obj(pairs: Vec<(&str, &str)>) -> Json {
    Json::Object(pairs.into_iter().map(|(k, v)| (k.to_string(), Json::Str(v.to_string()))).collect())
}

fn ev(event: &str, data: Json) -> Event {
    Event { ts: "2026-09-22T10:00:00Z".into(), session: "s".into(), event: event.into(), key: String::new(), data }
}

#[test]
fn asks_leave_out_continuers_and_pasted_blocks() {
    let events = [
        ev("prompt", obj(vec![("text", "continue")])),
        ev("prompt", obj(vec![("text", "Sim.")])),
        ev("prompt", obj(vec![("text", "go ahead")])),
        ev(
            "prompt",
            obj(vec![("text", "review this: <pasted_content id=\"7\">\n# big\n</pasted_content id=\"7\"> please")]),
        ),
    ];
    assert_eq!(prompts(&events), ["review this: [pasted content] please"]);
}

#[test]
fn files_outside_the_repo_are_not_the_projects() {
    let events = [
        ev("tool", obj(vec![("tool", "Edit"), ("file", "/repo/src/a.rs")])),
        ev("tool", obj(vec![("tool", "Edit"), ("file", "/Users/me/.agent/projects/x/memory/note.md")])),
    ];
    assert_eq!(files_touched(&events, Some("/repo")), [("src/a.rs".to_string(), 1)]);
}

#[test]
fn reads_before_the_first_edit_orient_minus_edited_files() {
    let events = [
        ev("tool", obj(vec![("tool", "Read"), ("file", "a.rs")])),
        ev("tool", obj(vec![("tool", "Read"), ("file", "b.rs")])),
        ev("tool", obj(vec![("tool", "Read"), ("file", "b.rs")])),
        ev("tool", obj(vec![("tool", "Edit"), ("file", "a.rs")])),
        ev("tool", obj(vec![("tool", "Read"), ("file", "c.rs")])),
    ];
    let s = Summary::collect(&events, &[], None, "now");
    assert_eq!(s.files, [("a.rs".to_string(), 1)]);
    assert_eq!(s.read_first, ["b.rs"]);
    assert_eq!(s.started, "2026-09-22T10:00:00Z");
}

#[test]
fn slash_commands_are_not_asks() {
    let events = [
        ev("prompt", obj(vec![("text", "/clear")])),
        ev("prompt", obj(vec![("text", "fix\nthe build")])),
        ev("prompt", obj(vec![("text", "<task-notification>\n<task-id>a1</task-id>")])),
        ev("prompt", obj(vec![("text", "<agent-message from=\"a1\">report</agent-message>")])),
    ];
    assert_eq!(Summary::collect(&events, &[], None, "now").prompts, ["fix the build"]);
}

fn meta(id: &str, cmd: &str, exit: i32) -> OutputMeta {
    OutputMeta {
        id: id.into(),
        ts: "2026-09-22T10:00:00Z".into(),
        session: Some("s".into()),
        cwd: String::new(),
        cmd: cmd.into(),
        exit,
        filter: "generic".into(),
        bytes_in: 3,
        bytes_out: 3,
        tokens_in: 1,
        tokens_out: 1,
    }
}

#[test]
fn the_latest_run_of_each_command_counts() {
    let outs = [meta("o1", "cargo test -p a", 1), meta("o2", "cargo build", 0), meta("o3", "cargo test -p a --quiet", -1)];
    let s = Summary::collect(&[], &outs, None, "2026-09-22T11:00:00Z");
    assert_eq!(s.failing, ["`cargo test -p a --quiet` (exit -1) · relay get o3"]);
    assert_eq!(s.commands, ["`cargo build` → ok · relay get o2"]);
    assert_eq!(s.started, "2026-09-22T11:00:00Z");
    assert_eq!(s.harness, "unknown");
}

#[test]
fn without_outputs_the_shell_commands_are_listed_newest_first() {
    let events = [
        ev("tool", obj(vec![("tool", "Bash"), ("command", "ls")])),
        ev("session_start", obj(vec![("harness", "codex")])),
        ev("tool", obj(vec![("tool", "Bash"), ("command", "make")])),
        ev("stop", obj(vec![("last", "done\nall")])),
        ev("remember", obj(vec![("kind", "rule"), ("path", ".relay/rules/x.md")])),
    ];
    let s = Summary::collect(&events, &[], None, "now");
    assert_eq!(s.commands, ["`make`", "`ls`"]);
    assert!(s.failing.is_empty());
    assert_eq!(s.harness, "codex");
    assert_eq!(s.last_reply.as_deref(), Some("done all"));
    assert_eq!(s.remembered, ["rule: .relay/rules/x.md"]);
}
