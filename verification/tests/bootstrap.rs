use relay::bootstrap::{detect_name, languages, lf_update, project_md, readme_lead, Facts, LF_RULE};
use relay::json::Json;

#[test]
fn lf_rule_is_added_once_after_existing_lines() {
    let once = lf_update("*.png binary").unwrap();
    assert!(lf_update(&once).is_none());
    assert_eq!(once, format!("*.png binary\n{LF_RULE}\n"));
    assert_eq!(lf_update("").unwrap(), format!("{LF_RULE}\n"));
    assert_eq!(lf_update("a\n").unwrap(), format!("a\n{LF_RULE}\n"));
    assert!(lf_update("  .relay/x text\n").is_none());
}

#[test]
fn the_readme_lead_skips_headings_and_badges() {
    let text = "# Title\n[![ci](x)](y)\n<p>logo</p>\n\nFirst line\n  second line  \n\nNext paragraph\n";
    assert_eq!(readme_lead(text), "First line second line");
    assert_eq!(readme_lead("# only a heading\n"), "");
    let long = "w ".repeat(300);
    assert_eq!(readme_lead(&long).chars().count(), 400);
}

#[test]
fn languages_rank_by_files_and_stop_at_four() {
    let files: Vec<String> = ["a.rs", "b.rs", "c.py", "d.ts", "e.tsx", "f.go", "g.rb", "h.md", "Makefile"]
        .iter()
        .map(|s| s.to_string())
        .collect();
    assert_eq!(languages(&files), ["Rust", "TypeScript", "Python", "Go"]);
    assert!(languages(&[]).is_empty());
}

#[test]
fn the_name_comes_from_the_manifests_first() {
    let pkg = Json::Object(vec![("name".to_string(), Json::Str("web-app".to_string()))]);
    assert_eq!(detect_name(Some(&pkg), Some("name = \"crate\""), Some("dir")), "web-app");
    assert_eq!(detect_name(None, Some("[package]\nname = \"crate\"\n"), Some("dir")), "crate");
    assert_eq!(detect_name(Some(&Json::Null), Some("[package]\n"), Some("dir")), "dir");
    assert_eq!(detect_name(None, None, None), "project");
}

#[test]
fn the_project_file_lists_what_was_found() {
    let f = Facts {
        name: "relay".to_string(),
        readme: "Keeps agents in step.".to_string(),
        langs: vec!["Rust".to_string()],
        agent_files: vec!["AGENTS.md".to_string()],
        hot: vec![("src/main.rs".to_string(), 12)],
        recent: vec!["abc1234 fix it".to_string()],
    };
    let out = project_md(&f, "2026-09-22T07:44:13Z");
    assert_eq!(
        out,
        "---\ngenerated: 2026-09-22T07:44:13Z\nby: relay init (rules only, edit freely)\n---\n\n# relay\n\nKeeps agents in step.\n\n**Stack:** Rust\n\n**Agent instructions:** AGENTS.md (read them first)\n\n**Most changed files:**\n- src/main.rs (12)\n\n**Recent commits:**\n- abc1234 fix it\n\n## Conventions\n\n_Add the rules a new contributor needs on day one. Keep it short; decisions and gotchas go in their own files._\n"
    );
}
