use relay::handoff::pick;
use relay::handoff::render::{excerpt, first_paragraph, render, GitState, Header};
use relay::handoff::summary::Summary;
use relay::handoff::Tail;

#[test]
fn a_headless_run_does_not_hide_the_last_real_session() {
    let script = "---\nbranch: main\nheadless: true\n---\n";
    let work = "---\nbranch: main\n---\n";
    let other_branch = "---\nbranch: feat\n---\n";
    assert_eq!(pick(&[script, work], "main"), Some(1));
    assert_eq!(pick(&[script, other_branch], "main"), Some(1));
    assert_eq!(pick(&[script], "main"), Some(0));
    assert_eq!(pick(&[], "main"), None);
}

fn summary() -> Summary {
    Summary {
        started: "2026-09-22T09:00:00Z".into(),
        harness: "code-agent".into(),
        prompts: vec!["add retry".into()],
        last_reply: None,
        files: vec![("src/pay.rs".into(), 2)],
        read_first: vec![],
        remembered: vec![],
        commands: vec![],
        failing: vec![],
    }
}

#[test]
fn renders_without_disk_or_clock() {
    let git = GitState { branch: "main".into(), sha: "abc1234".into(), dirty: vec![], user: None };
    let t = Tail { replies: vec!["Retry added.".into()], ..Tail::default() };
    let h = Header { session: "s1", reason: "exit", ended: "2026-09-22T10:00:00Z" };
    let out = render(&h, &summary(), &t, &git);
    assert!(
        out.starts_with(
            "---\ntype: Handoff\ntitle: \"Handoff · main · 2026-09-22\"\ntimestamp: 2026-09-22T10:00:00Z\nsession: s1\nharness: code-agent\nbranch: main\n"
        ),
        "{out}"
    );
    assert!(out.contains("# Handoff · main · 2026-09-22\n\n## Where it stopped\nRetry added.\n\n"), "{out}");
    assert!(out.contains("## Files touched\n- src/pay.rs (×2)\n"), "{out}");
    assert!(out.ends_with("## Git\nmain @ abc1234, clean\n"), "{out}");
}

#[test]
fn agent_headings_never_read_as_sections() {
    let out = excerpt("## Done\nAll green.\n# Next\nship", 200);
    assert_eq!(out, "**Done**\nAll green.\n**Next**\nship");
}

#[test]
fn a_cut_closes_an_open_code_fence() {
    let text = format!("Run:\n```\n{}\n```\nafter", "x".repeat(50));
    let out = excerpt(&text, 30);
    assert_eq!(out.matches("```").count(), 2, "{out}");
    assert!(out.ends_with('…'));
}

#[test]
fn earlier_replies_are_their_opening_on_one_line() {
    assert_eq!(first_paragraph("Fixed the\nbuild.\n\nDetails follow.", 100), "Fixed the build.");
}

#[test]
fn dirty_files_are_listed_up_to_ten() {
    let dirty: Vec<String> = (0..12).map(|i| format!("f{i}")).collect();
    let git = GitState { branch: String::new(), sha: String::new(), dirty, user: None };
    let h = Header { session: "s", reason: "r", ended: "2026-01-02T03:04:05Z" };
    let s = Summary { last_reply: Some("bye\nnow".into()), prompts: vec![], files: vec![], ..summary() };
    let out = render(&h, &s, &Tail::default(), &git);
    assert!(out.contains("title: \"Handoff · 2026-01-02\""), "{out}");
    assert!(out.contains("## Last reply\nbye\nnow\n\n"), "{out}");
    assert!(out.contains("## Git\n(no branch) @ (no commits), 12 dirty:\n- f0\n"), "{out}");
    assert!(out.ends_with("- f9\n- … +2\n"), "{out}");
}
