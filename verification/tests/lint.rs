use relay::limits::LINT_INSTRUCTIONS_BYTES;
use relay::lint;

#[test]
fn a_finished_task_keeps_one_line() {
    let doc = "# Plan\n## T-1 ✅ Login\nShipped in a1b2.\n## T-2 [x] Pay\nShipped.\nDetails.\nMore.\n## T-3 Next\nlong\nlong\n";
    let got = lint::file("docs/plan.md", doc);
    assert_eq!(got.len(), 1, "{got:?}");
    assert_eq!(got[0].at, "docs/plan.md:4");
    assert!(got[0].what.starts_with("\"T-2 [x] Pay\" is done but keeps 3 lines"), "{}", got[0].what);
    let list = "- [x] ship login\n  it took a while\n  and more\n- [ ] pay\n- [x] one line\n";
    assert_eq!(lint::file("TODO.md", list).iter().map(|f| f.at.as_str()).collect::<Vec<_>>(), ["TODO.md:1"]);
}

#[test]
fn adr_implementation_sections_stay_short() {
    let long = format!("# 0013 Scale\n## Decisão\nx\n## Implementação\n{}", "- step\n".repeat(12));
    let got = lint::file("docs/decisions/0013-scale.md", &long);
    assert_eq!(got.len(), 1);
    assert!(got[0].what.contains("has 12 lines, over 10"), "{}", got[0].what);
    assert!(lint::file("docs/plan/0013-scale.md", &long).is_empty(), "only ADRs");
}

#[test]
fn sizes_and_subjects() {
    let big = "x".repeat(usize::try_from(LINT_INSTRUCTIONS_BYTES).unwrap() + 1);
    assert!(lint::file("apps/api/AGENTS.md", &big)[0].what.contains("every call of every session"));
    assert!(lint::file("README.md", &big).is_empty());
    assert!(lint::subject("Short subject\n\nbody").is_none());
    assert!(lint::subject(&"word ".repeat(20)).unwrap().what.starts_with("subject is 100 characters"));
    assert!(lint::subject("# comment\n\nFix it\n").is_none());
}

#[test]
fn a_finished_item_reports_its_note_and_line() {
    let list = "intro\n- [x] ship login\n  it took a while\n";
    let got = lint::file("TODO.md", list);
    assert_eq!(got.len(), 1);
    assert_eq!(got[0].at, "TODO.md:2");
    assert_eq!(got[0].what, "\"- [x] ship login\" is done but keeps 2 lines; leave 1, git has the rest");
}

#[test]
fn the_memory_index_and_long_docs_have_their_own_budgets() {
    let index = "y".repeat(8 * 1024 + 1);
    let got = lint::file(".relay/index.md", &index);
    assert_eq!(got.len(), 1);
    assert!(got[0].what.contains("relay compile --hygiene"), "{}", got[0].what);
    let doc = "z".repeat(100 * 1024 + 1);
    let got = lint::file("docs/big.md", &doc);
    assert_eq!(got.len(), 1);
    assert!(got[0].what.contains("split it by phase or area"), "{}", got[0].what);
    assert!(lint::file("docs/big.md", "short").is_empty());
}

#[test]
fn a_subject_at_the_budget_passes() {
    let at = "a".repeat(72);
    assert!(lint::subject(&at).is_none());
    let over = "a".repeat(73);
    let f = lint::subject(&over).unwrap();
    assert_eq!(f.at, "commit message");
    assert_eq!(f.what, "subject is 73 characters, over 72: `git log --oneline` cuts it");
}
