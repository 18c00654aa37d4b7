use relay::memory::{Item, Kind};
use relay::okf::{handoff_entry, index, migrated, migrated_project, newest_first, VERSION};

#[test]
fn old_items_gain_type_title_and_timestamp() {
    let old = "---\nkind: gotcha\ncreated: 2026-09-22T10:00:00Z\nsha: abc\npaths: src/a.rs\nexpires: 2027-01-01T00:00:00Z\n---\n\nHooks fail open\n";
    let new = migrated(old, Kind::Gotcha).unwrap();
    assert!(
        new.starts_with("---\ntype: Gotcha\ntitle: \"Hooks fail open\"\ntimestamp: 2026-09-22T10:00:00Z\n"),
        "{new}"
    );
    assert!(
        new.contains("sha: abc\npaths: src/a.rs\nstale_after: 2027-01-01T00:00:00Z\n---\n\nHooks fail open\n"),
        "{new}"
    );
    assert_eq!(migrated(&new, Kind::Gotcha), None);
}

#[test]
fn an_old_project_file_becomes_a_project_concept() {
    let old = "---\ngenerated: 2026-09-22T07:44:13Z\nby: relay init\n---\n\n# relay\n\nBody.\n";
    let new = migrated_project(old).unwrap();
    assert!(new.starts_with("---\ntype: Project\ntitle: \"relay\"\ntimestamp: 2026-09-22T07:44:13Z\n"), "{new}");
    assert!(new.ends_with("---\n\n# relay\n\nBody.\n"), "{new}");
    assert_eq!(migrated_project(&new), None);
}

#[test]
fn the_index_declares_the_version_and_lists_every_concept() {
    let item = Item {
        kind: Kind::Rule,
        path: "x/rules/one.md".into(),
        title: "One rule".into(),
        created: String::new(),
        sha: None,
        about: vec![],
    };
    let out = index("app", &[item], &[("s1.md".into(), "Handoff · main · 2026-09-22".into())]);
    assert!(out.starts_with("---\nokf_version: \"0.2\"\n---\n\n# app · relay memory\n"), "{out}");
    assert!(out.contains("## Rules\n\n- [One rule](rules/one.md)\n"), "{out}");
    assert!(out.contains("## Handoffs\n\n- [Handoff · main · 2026-09-22](handoffs/s1.md)\n"), "{out}");
    assert_eq!(VERSION, "0.2");
}

#[test]
fn an_empty_bundle_lists_only_the_project() {
    let out = index("p", &[], &[]);
    assert_eq!(
        out,
        "---\nokf_version: \"0.2\"\n---\n\n# p · relay memory\n\n## Project\n\n- [project.md](project.md): what a session reads first.\n\n"
    );
}

#[test]
fn a_project_file_without_a_heading_is_named_project() {
    let new = migrated_project("Just text.\n").unwrap();
    assert_eq!(new, "---\ntype: Project\ntitle: \"project\"\ntimestamp: \ngenerated: {by: \"process:relay init\", at: }\n---\n\nJust text.\n");
}

#[test]
fn handoffs_list_newest_first() {
    let a = handoff_entry("a.md", "---\nended: 2026-01-02T00:00:00Z\ntitle: \"First\"\n---\n");
    let b = handoff_entry("b.md", "---\nended: 2026-03-02T00:00:00Z\n---\n");
    assert_eq!(b.2, "b.md");
    let got = newest_first(&vec![a, b]);
    assert_eq!(got, [("b.md".to_string(), "b.md".to_string()), ("a.md".to_string(), "First".to_string())]);
}
