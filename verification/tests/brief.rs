use relay::brief::{build, cut};
use relay::memory::{Item, Kind};
use relay::paths::Paths;

fn paths() -> Paths {
    Paths { root: "/repo".to_string(), shared: "/repo/.relay".to_string(), local: "/repo/.git/relay".to_string(), in_git: true }
}

fn item(kind: Kind, title: &str) -> Item {
    Item { kind, path: format!("/repo/.relay/x/{title}.md"), title: title.to_string(), created: String::new(), sha: None, about: vec![] }
}

#[test]
fn an_empty_project_gives_no_brief() {
    assert_eq!(build(&paths(), "  \n", "main", None, &[]), "");
}

#[test]
fn the_brief_has_the_project_memory_and_last_session() {
    let project = "---\ngenerated: x\n---\n\n# relay\n\nKeeps agents in step.\n";
    let handoff = "---\nbranch: feat\nended: 2026-09-22T10:00:00Z\n---\n\n# Handoff\n- did things\n";
    let items = [item(Kind::Rule, "Run the tests")];
    let out = build(&paths(), project, "main", Some(("/repo/.git/relay/handoffs/s1.md", handoff)), &items);
    assert!(out.starts_with("# relay brief\n# relay\n\nKeeps agents in step.\n\n## Remembered\n- rule: Run the tests\n\n"), "{out}");
    assert!(out.contains("## Last session (2026-09-22, branch feat)\n# Handoff\n- did things\n"), "{out}");
    assert!(out.contains("_Full handoff: .git/relay/handoffs/s1.md_\n"), "{out}");
    assert!(out.ends_with("`relay remember decision|gotcha|rule \"<one line>\"`._\n"), "{out}");
}

#[test]
fn memory_past_the_budget_is_counted() {
    let items: Vec<Item> = (0..60).map(|i| item(Kind::Gotcha, &format!("Gotcha number {i} with some words"))).collect();
    let out = build(&paths(), "", "main", None, &items);
    assert!(out.contains(" more in .relay\n"), "{out}");
}

#[test]
fn cut_stops_at_a_whole_line() {
    let s: Vec<char> = "one\ntwo\nthree".chars().collect();
    assert_eq!(cut(&s, 100).iter().collect::<String>(), "one\ntwo\nthree");
    assert_eq!(cut(&s, 9).iter().collect::<String>(), "one\ntwo\n…");
    assert_eq!(cut(&s, 2).iter().collect::<String>(), "on\n…");
}
