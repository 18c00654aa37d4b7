use relay::handoff::render::GitState;
use relay::memory::{
    candidate_path, commits_to_ask, item_from, listed, prepare, render, slug, staleness, title_of, Item, Kind, NewItem,
    NotSaved,
};
use relay::paths::Paths;

fn git(branch: &str, sha: &str) -> GitState {
    GitState { branch: branch.to_string(), sha: sha.to_string(), dirty: vec![], user: None }
}

fn item(kind: Kind, path: &str, title: &str, sha: Option<&str>, about: &[&str]) -> Item {
    Item {
        kind,
        path: path.to_string(),
        title: title.to_string(),
        created: String::new(),
        sha: sha.map(|s| s.to_string()),
        about: about.iter().map(|s| s.to_string()).collect(),
    }
}

fn paths() -> Paths {
    Paths { root: "/repo".to_string(), shared: "/repo/.relay".to_string(), local: "/repo/.git/relay".to_string(), in_git: true }
}

#[test]
fn slugs_are_short_and_ascii() {
    assert_eq!(slug("Use `cargo nextest`, not cargo test!"), "use-cargo-nextest-not-cargo-test");
    assert_eq!(slug("Não usar ç"), "n-o-usar");
    assert_eq!(slug("!!!"), "item");
    assert!(slug(&"a ".repeat(100)).len() <= 60);
}

#[test]
fn item_records_where_it_was_learned() {
    let git = git("main", "abc1234");
    let item = NewItem { kind: Kind::Gotcha, text: " Hooks fail open \n", files: &[], session: Some("s1") };
    assert_eq!(
        render(&item, &git, "2026-09-22T10:00:00Z"),
        "---\nkind: gotcha\ncreated: 2026-09-22T10:00:00Z\nbranch: main\nsha: abc1234\nsession: s1\n---\n\nHooks fail open\n"
    );
}

#[test]
fn title_is_first_line_without_heading() {
    assert_eq!(title_of("\n## Hooks fail open\nbecause…"), "Hooks fail open");
}

#[test]
fn an_item_is_stale_when_a_path_it_is_about_changed() {
    let it = item(Kind::Gotcha, "x.md", "t", Some("abc"), &["./src/pay.rs", "src/compress/", "docs"]);
    let changed = ["src/pay.rs".to_string(), "src/compress/git.rs".to_string(), "docsite/a.md".to_string()];
    assert_eq!(it.changed(&changed), ["src/pay.rs", "src/compress"]);
    assert!(it.changed(&["README.md".to_string()]).is_empty());
}

#[test]
fn crlf_item_reads_by_its_title() {
    let got = item_from(Kind::Rule, "/r/.relay/rules/hooks.md", "---\r\ncreated: 2026-09-22\r\n---\r\n\r\n# Hooks fail open\r\n")
        .unwrap();
    assert_eq!(got.title, "Hooks fail open");
    assert_eq!(got.created, "2026-09-22");
    assert!(got.sha.is_none());
    assert!(got.about.is_empty());
}

#[test]
fn an_item_file_gives_its_commit_and_paths() {
    let body = "---\nkind: gotcha\ncreated: 2026-09-22T10:00:00Z\nsha: abc1234\npaths: src/a.rs, , docs/ \n---\n\nHooks fail open\n";
    let got = item_from(Kind::Gotcha, "g.md", body).unwrap();
    assert_eq!(got.sha.as_deref(), Some("abc1234"));
    assert_eq!(got.about, ["src/a.rs", "docs/"]);
    assert!(item_from(Kind::Gotcha, "g.md", "---\ncreated: x\n---\n\n\n").is_none());
}

#[test]
fn the_paths_line_joins_the_files() {
    let files = ["src/a.rs".to_string(), "docs".to_string()];
    let item = NewItem { kind: Kind::Rule, text: "Keep it short", files: &files, session: None };
    assert_eq!(
        render(&item, &git("", ""), "2026-01-01T00:00:00Z"),
        "---\nkind: rule\ncreated: 2026-01-01T00:00:00Z\npaths: src/a.rs, docs\n---\n\nKeep it short\n"
    );
}

#[test]
fn one_git_question_per_commit_up_to_the_limit() {
    let items = vec![
        item(Kind::Rule, "a.md", "a", Some("c1"), &["src/a.rs"]),
        item(Kind::Rule, "b.md", "b", Some("c1"), &["src/b.rs"]),
        item(Kind::Rule, "c.md", "c", Some("c2"), &[]),
        item(Kind::Rule, "d.md", "d", Some("c3"), &["src/d.rs"]),
        item(Kind::Rule, "e.md", "e", Some("c4"), &["src/e.rs"]),
    ];
    assert_eq!(commits_to_ask(&items, 2), ["c1", "c3"]);
    let answers = vec![
        ("c1".to_string(), Some(vec!["src/b.rs".to_string()])),
        ("c3".to_string(), Some(vec!["src/d.rs".to_string()])),
    ];
    let got = staleness(&items, 2, &answers);
    let want: Vec<Vec<String>> = vec![vec![], vec!["src/b.rs".to_string()], vec![], vec!["src/d.rs".to_string()], vec![]];
    assert_eq!(got, want);
}

#[test]
fn a_second_item_with_the_same_title_is_refused() {
    let existing = vec![item(Kind::Gotcha, "/repo/.relay/gotchas/hooks-fail-open.md", "Hooks fail open", None, &[])];
    let new = NewItem { kind: Kind::Gotcha, text: "# Hooks fail open\nagain", files: &[], session: None };
    match prepare(&paths(), &new, &existing) {
        Err(NotSaved::AlreadyRemembered(at)) => assert_eq!(at, ".relay/gotchas/hooks-fail-open.md"),
        other => panic!("{other:?}"),
    }
    let rule = NewItem { kind: Kind::Rule, text: "# Hooks fail open\nagain", files: &[], session: None };
    let (dir, stem) = prepare(&paths(), &rule, &existing).unwrap();
    assert_eq!(dir, "/repo/.relay/rules");
    assert_eq!(stem, "hooks-fail-open");
    let empty = NewItem { kind: Kind::Rule, text: "  \n ", files: &[], session: None };
    assert!(matches!(prepare(&paths(), &empty, &existing), Err(NotSaved::Empty)));
    assert_eq!(NotSaved::Empty.message(), "nothing to remember: text is empty");
}

#[test]
fn free_names_count_up_from_two() {
    assert_eq!(candidate_path("/d", "x", 1), "/d/x.md");
    assert_eq!(candidate_path("/d/", "x", 3), "/d/x-3.md");
    assert_eq!(Kind::Decision.dir_name(), "decisions");
    assert_eq!(Kind::all(), [Kind::Rule, Kind::Gotcha, Kind::Decision]);
}

#[test]
fn crlf_item_lists_by_its_title() {
    let files = vec![(
        "/r/.relay/rules/hooks.md".to_string(),
        "---\r\ncreated: 2026-09-22\r\n---\r\n\r\n# Hooks fail open\r\n".to_string(),
    )];
    let items = listed(Kind::Rule, &files);
    assert_eq!(items[0].title, "Hooks fail open");
    assert_eq!(items[0].created, "2026-09-22");
}

#[test]
fn a_directory_lists_newest_first_then_by_path() {
    let file = |name: &str, created: &str| {
        (format!("/r/.relay/rules/{name}"), format!("---\ncreated: {created}\n---\n\n# {name}\n"))
    };
    let files = vec![
        file("b.md", "2026-09-01"),
        file("notes.txt", "2026-09-30"),
        file("a.md", "2026-09-01"),
        file("c.md", "2026-09-20"),
        file(".md", "2026-09-30"),
        ("/r/.relay/rules/empty.md".to_string(), "---\ncreated: 2026-09-30\n---\n".to_string()),
    ];
    let titles: Vec<String> = listed(Kind::Rule, &files).into_iter().map(|i| i.title).collect();
    assert_eq!(titles, vec!["c.md", "a.md", "b.md"]);
}
