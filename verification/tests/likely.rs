use relay::json::Json;
use relay::likely::{candidates, files, Likely};
use relay::paths::Paths;
use relay::spool::Event;

fn paths() -> Paths {
    Paths { root: "/repo".to_string(), shared: "/repo/.relay".to_string(), local: "/repo/.git/relay".to_string(), in_git: true }
}

fn ev(event: &str, pairs: &[(&str, &str)]) -> Event {
    let data = Json::Object(pairs.iter().map(|(k, v)| (k.to_string(), Json::Str(v.to_string()))).collect());
    Event { ts: "2026-09-22T10:00:00Z".into(), session: "s".into(), event: event.into(), key: String::new(), data }
}

fn likely(file: &str, commits: usize, sessions: usize) -> Likely {
    Likely { file: file.into(), commits, sessions }
}

fn find<'a>(v: &'a [Likely], file: &str) -> Option<&'a Likely> {
    v.iter().find(|l| l.file == file)
}

#[test]
fn commits_and_asked_turns_are_the_evidence() {
    let commits = vec![
        ("T-253: filters".to_string(), vec!["src/a.rs".to_string(), "src/b.rs".to_string()]),
        ("fix T-2530".to_string(), vec!["src/other.rs".to_string()]),
        ("more on t-253".to_string(), vec!["src/a.rs".to_string()]),
    ];
    let session = || vec![
        ev("prompt", &[("text", "implement T-253")]),
        ev("tool", &[("tool", "Edit"), ("file", "/repo/src/a.rs")]),
        ev("tool", &[("tool", "Edit"), ("file", "/repo/src/a.rs")]),
        ev("tool", &[("tool", "Read"), ("file", "/repo/src/read.rs")]),
        ev("tool", &[("tool", "Write"), ("file", "/tmp/scratch.rs")]),
        ev("prompt", &[("text", "now something else")]),
        ev("tool", &[("tool", "Edit"), ("file", "/repo/src/unrelated.rs")]),
    ];
    let got = candidates(&paths(), "T-253", &commits, &[session(), session()]);
    assert_eq!(got.len(), 2, "{got:?}");
    assert_eq!(find(&got, "src/a.rs"), Some(&likely("src/a.rs", 2, 2)));
    assert_eq!(find(&got, "src/b.rs"), Some(&likely("src/b.rs", 1, 0)));
}

#[test]
fn most_evidence_first_then_by_file_and_only_files_still_there() {
    let found = vec![
        likely("src/z.rs", 0, 3),
        likely("src/gone.rs", 9, 9),
        likely("src/b.rs", 1, 1),
        likely("src/a.rs", 1, 1),
        likely("src/c.rs", 2, 0),
    ];
    let got: Vec<String> = files(found, &[true, false, true, true, true]).into_iter().map(|l| l.file).collect();
    assert_eq!(got, vec!["src/c.rs", "src/a.rs", "src/b.rs", "src/z.rs"]);
}

#[test]
fn at_most_eight_files() {
    let found: Vec<Likely> = (0..12).map(|i| likely(&format!("f{i:02}"), i, 0)).collect();
    let got: Vec<String> = files(found, &[true; 12]).into_iter().map(|l| l.file).collect();
    assert_eq!(got, vec!["f11", "f10", "f09", "f08", "f07", "f06", "f05", "f04"]);
}
