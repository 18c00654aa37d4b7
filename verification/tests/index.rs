use relay::index::{build, is_id, refresh, reusable, VERSION};

#[test]
fn ids_belong_to_the_deepest_section_around_them() {
    let doc = "# Plan\nsee T-9\n## T-1 · Login\nneeds T-2 and t-2\n## T-2 · Pay\nstripe\n";
    let idx = build(doc, true, 0, 0, String::new());
    assert_eq!(idx.entries_for("T-9"), Some(vec![0]));
    assert_eq!(idx.entries_for("T-2"), Some(vec![1, 2]));
    assert!(is_id("T-253a") && is_id("adr-12") && !is_id("login flow"));
}

#[test]
fn an_unchanged_file_is_not_parsed_again() {
    let first = build("# A\n## T-1\nx\n", true, 14, 1000, "h1".to_string());
    assert_eq!(first.entries.len(), 2);
    assert_eq!(first.version, VERSION);
    assert!(reusable(&first, 14, 1000));
    assert!(!reusable(&first, 14, 2000));
    // Touched, not changed: the cached entries stay, only the stamp moves.
    let touched = refresh(Some(first), "# A\n## T-1\nx\n## T-2\ny\n", true, 14, 2000, "h1".to_string());
    assert_eq!((touched.entries.len(), touched.mtime_ms), (2, 2000));
    let changed = refresh(Some(touched), "# A\n## T-1\nx\n## T-2\ny\n", true, 22, 3000, "h2".to_string());
    assert_eq!(changed.entries.len(), 3, "a changed file is indexed again");
    assert_eq!(changed.hash, "h2");
}
