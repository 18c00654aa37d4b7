use relay::likely::Likely;
use relay::limits::TASK_MAX_CHARS;
use relay::outline::{self, Entry};
use relay::task_brief::{best_first, compose, in_doc, mentions, Hit};

#[test]
fn an_id_matches_as_a_whole_token() {
    assert!(mentions("### T-253 · Filters", "T-253"));
    assert!(mentions("see t-253.", "T-253"));
    assert!(!mentions("### T-2530 · Other", "T-253"));
    assert!(!mentions("AT-253", "T-253"));
    assert!(mentions("Voice picker for the learner", "learner voice"));
    assert!(!mentions("Voice picker", "learner voice"));
}

#[test]
fn the_heading_that_names_the_task_wins() {
    let doc = "# Plan\n## Phase 1\n### T-1 Login\nneeds T-2\n### T-2 Pay\nstripe\n## Phase 2\n";
    let at = |d: &str| outline::of(d, true);
    let hits = in_doc("docs/plan.md", doc, &at(doc), "T-2");
    let found: Vec<(usize, usize, u8)> = hits.iter().map(|h| (h.entry.start, h.entry.end, h.rank)).collect();
    assert_eq!(found, [(5, 6, 0), (3, 4, 2)], "the task, then the section that mentions it");
    let two = "### T-3 · Radar — T-2\nx\n### T-2 · Pay\ny\n";
    let dependent = in_doc("docs/plan.md", two, &at(two), "T-2");
    assert_eq!(dependent.iter().map(|h| h.rank).collect::<Vec<_>>(), [1, 0]);
    assert_eq!(hits[0].body, "### T-2 Pay\nstripe");
    let loose = in_doc("docs/plan.md", doc, &at(doc), "stripe");
    assert_eq!((loose[0].entry.title.as_str(), loose[0].rank), ("T-2 Pay", 2));
}

#[test]
fn a_long_section_is_cut_with_the_range_to_read() {
    let body = "line of the task\n".repeat(2000);
    let hit = Hit {
        file: "docs/plan.md".into(),
        entry: Entry { depth: 3, title: "T-9".into(), start: 10, end: 2010 },
        body,
        rank: 0,
    };
    let out = compose("T-9", &[hit], &[], &[]);
    assert!(out.len() < TASK_MAX_CHARS, "{}", out.len());
    assert!(out.contains("… cut; the rest is Read offset 10 limit 2001"), "{out}");
}

#[test]
fn nothing_found_says_so() {
    assert_eq!(
        compose("T-1", &[], &[], &[]),
        "# relay brief: T-1\nNothing in the docs, memory or recent sessions names it. Try another id or fewer words.\n"
    );
}

#[test]
fn remembered_items_and_likely_files_follow_the_sections() {
    let hit = Hit {
        file: "docs/plan.md".into(),
        entry: Entry { depth: 2, title: "T-1".into(), start: 3, end: 4 },
        body: "## T-1\nship it".into(),
        rank: 0,
    };
    let files = [Likely { file: "src/pay.rs".into(), commits: 2, sessions: 1 }];
    let out = compose("T-1", &[hit], &["- rule: T-1 needs a flag".to_string()], &files);
    assert_eq!(
        out,
        "# relay brief: T-1\n\n## docs/plan.md L3-4\n## T-1\nship it\n\n## Remembered\n- rule: T-1 needs a flag\n\n## Likely files\n- src/pay.rs · 2 commits, 1 session\n"
    );
}

#[test]
fn past_three_sections_the_rest_are_named() {
    let hit = |n: usize| Hit {
        file: format!("docs/{n}.md"),
        entry: Entry { depth: 1, title: "T".into(), start: 1, end: 2 },
        body: "x".into(),
        rank: 0,
    };
    let out = compose("T", &[hit(1), hit(2), hit(3), hit(4), hit(5)], &[], &[]);
    assert!(out.ends_with("\nAlso named in: docs/4.md L1-2, docs/5.md L1-2\n"), "{out}");
}

fn hit(file: &str, depth: usize, rank: u8) -> Hit {
    Hit { file: file.into(), entry: Entry { depth, title: "T".into(), start: 1, end: 2 }, body: String::new(), rank }
}

#[test]
fn hits_of_every_doc_list_the_task_first_then_deeper_then_by_file() {
    let got: Vec<(String, usize, u8)> = best_first(vec![
        hit("b.md", 2, 1),
        hit("a.md", 2, 1),
        hit("z.md", 1, 0),
        hit("c.md", 3, 1),
        hit("a.md", 4, 2),
    ])
    .into_iter()
    .map(|h| (h.file, h.entry.depth, h.rank))
    .collect();
    assert_eq!(
        got,
        vec![
            ("z.md".into(), 1, 0),
            ("c.md".into(), 3, 1),
            ("a.md".into(), 2, 1),
            ("b.md".into(), 2, 1),
            ("a.md".into(), 4, 2)
        ]
    );
}
