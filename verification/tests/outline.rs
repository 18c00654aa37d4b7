use relay::outline::{is_markdown, of, pick, render, Entry};

#[test]
fn markdown_sections_end_at_the_next_peer() {
    let md = "# Plan\nintro\n## T-1 Login\ntext\n```\n# not a heading\n```\n## T-2 Pay\nmore\n# Appendix\nx\n";
    let got = of(md, true);
    let spans: Vec<(usize, &str, usize, usize)> =
        got.iter().map(|e| (e.depth, e.title.as_str(), e.start, e.end)).collect();
    assert_eq!(spans, [(1, "Plan", 1, 9), (2, "T-1 Login", 3, 7), (2, "T-2 Pay", 8, 9), (1, "Appendix", 10, 11)]);
}

#[test]
fn code_items_are_blocks_at_column_zero() {
    let rs = "use std::fs;\n\n/// Doc.\npub fn a() {\n    1\n}\n\n#[test]\nfn b() {\n    2\n}\n";
    let got = of(rs, false);
    let spans: Vec<(&str, usize, usize)> = got.iter().map(|e| (e.title.as_str(), e.start, e.end)).collect();
    assert_eq!(spans, [("pub fn a() {", 4, 6), ("fn b() {", 9, 11)]);
}

#[test]
fn text_without_structure_is_cut_in_chunks() {
    let text = "word\n".repeat(900);
    let got = of(&text, false);
    assert_eq!(got.iter().map(|e| (e.start, e.end)).collect::<Vec<_>>(), [(1, 400), (401, 800), (801, 900)]);
}

#[test]
fn a_long_outline_keeps_the_top_levels() {
    let mut md = String::from("# Plan\n");
    for i in 0..50 {
        md.push_str(&format!("## Phase {i}\n### T-{i}\nbody\n"));
    }
    let out = render(&of(&md, true), 60);
    assert!(out.starts_with("L1-151       Plan\nL2-4           Phase 0\n"), "{out}");
    assert!(!out.contains("T-3"), "{out}");
    assert!(out.ends_with("… 50 more entries, deeper or later; Grep for a word to find them\n"), "{out}");
    // Room for more: the first few children of each parent.
    let mut md = String::from("# Plan\n");
    for p in 0..5 {
        md.push_str(&format!("## Phase {p}\n"));
        for t in 0..20 {
            md.push_str(&format!("### T-{p}{t:02}\nbody\n"));
        }
    }
    let shown: Vec<String> = pick(&of(&md, true), 30).iter().map(|e| e.title.clone()).collect();
    assert_eq!(shown.len(), 26, "{shown:?}");
    assert_eq!(&shown[..7], ["Plan", "Phase 0", "T-000", "T-001", "T-002", "T-003", "Phase 1"]);
}

fn entry(depth: usize, title: &str, start: usize, end: usize) -> Entry {
    Entry { depth, title: title.to_string(), start, end }
}

#[test]
fn markdown_is_known_by_its_extension_in_any_case() {
    assert!(is_markdown("docs/PLAN.MD"));
    assert!(is_markdown("a.markdown"));
    assert!(is_markdown("page.mdx"));
    assert!(!is_markdown("notes.txt"));
}

#[test]
fn everything_fits_when_the_budget_allows() {
    let es = vec![entry(1, "A", 1, 5), entry(2, "B", 2, 3), entry(2, "C", 4, 5)];
    let shown = pick(&es, 10);
    assert_eq!(shown.len(), 3);
    assert_eq!(render(&es, 10), "L1-5         A\nL2-3           B\nL4-5           C\n");
}

#[test]
fn no_level_fits_takes_the_first_entries() {
    let es = vec![entry(1, "A", 1, 2), entry(1, "B", 3, 4), entry(1, "C", 5, 6)];
    let shown = pick(&es, 2);
    assert_eq!(shown.iter().map(|e| e.title.as_str()).collect::<Vec<_>>(), ["A", "B"]);
    assert_eq!(render(&es, 2), "L1-2         A\nL3-4         B\n… 1 more entries, deeper or later; Grep for a word to find them\n");
    assert!(pick(&Vec::new(), 5).is_empty());
    assert_eq!(render(&Vec::new(), 5), "");
}
