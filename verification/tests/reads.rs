use relay::paths::Paths;
use relay::reads::{blob_file, content_hash, key, session_file, shift_hunks, verdict, worth_tracking, Verdict};

fn paths() -> Paths {
    Paths { root: "/r".to_string(), shared: "/r/.relay".to_string(), local: "/r/.git/relay".to_string(), in_git: true }
}

fn numbered(n: usize) -> String {
    (1..=n).map(|i| format!("line {i}")).collect::<Vec<_>>().join("\n") + "\n"
}

#[test]
fn hunks_of_a_range_name_file_lines() {
    assert_eq!(shift_hunks("@@ -1,3 +1,4 @@ fn a\n-x\n+y", 99), "@@ -100,3 +100,4 @@ fn a\n-x\n+y");
    assert_eq!(shift_hunks("@@ -5 +5 @@\n-x", 10), "@@ -15 +15 @@\n-x");
}

#[test]
fn a_reread_is_unchanged_then_a_diff() {
    let v1 = numbered(60);
    assert_eq!(verdict(None, "h1", None, 1, &v1), Verdict::Fresh);
    assert_eq!(verdict(Some(("h1", "just now")), "h1", None, 1, &v1), Verdict::Unchanged { ago: "just now".into() });
    assert_ne!(key("sub-1", "src/a.rs", ""), key("", "src/a.rs", ""), "a subagent has its own context");
    let v2 = v1.replace("line 30\n", "line thirty\n");
    let raw = "@@ -27,7 +27,7 @@\n line 27\n line 28\n line 29\n-line 30\n+line thirty\n line 31\n line 32\n line 33\n";
    let Verdict::Changed { diff, .. } = verdict(Some(("h1", "just now")), "h2", Some(raw), 1, &v2) else {
        panic!("expected a diff")
    };
    assert!(diff.starts_with("@@ -27,7 +27,7 @@") && diff.contains("-line 30\n+line thirty"), "{diff}");
}

#[test]
fn a_range_read_names_file_lines_in_its_diff() {
    let content = numbered(60);
    let raw = "@@ -3 +3 @@\n-a\n+b\n";
    let got = verdict(Some(("h1", "2 min ago")), "h2", Some(raw), 41, &content);
    assert_eq!(got, Verdict::Changed { ago: "2 min ago".into(), diff: "@@ -43 +43 @@\n-a\n+b".into() });
}

#[test]
fn a_diff_about_as_long_as_the_range_is_not_worth_it() {
    let content = "x\ny\n";
    let raw = "@@ -1,2 +1,2 @@\n-x\n-y\n+z\n+w\n";
    assert_eq!(verdict(Some(("h1", "now")), "h2", Some(raw), 1, content), Verdict::Fresh);
    assert_eq!(verdict(Some(("h1", "now")), "h2", None, 1, content), Verdict::Fresh);
    assert_eq!(verdict(Some(("h1", "now")), "h2", Some(""), 1, content), Verdict::Fresh);
}

#[test]
fn lines_that_are_not_hunk_headers_stay() {
    assert_eq!(shift_hunks("@@ -x +1 @@\n@@ -1,+2 @@\n-@@ -1 +1 @@", 5), "@@ -x +1 @@\n@@ -1,+2 @@\n-@@ -1 +1 @@");
    assert_eq!(shift_hunks("@@ -1 +1 @@\r\n-a\n", 0), "@@ -1 +1 @@\r\n-a\n");
}

#[test]
fn blank_and_huge_reads_are_not_tracked() {
    assert!(worth_tracking("fn main() {}\n"));
    assert!(!worth_tracking("  \n\t"));
    assert!(!worth_tracking(&"x".repeat(300 * 1024)));
}

#[test]
fn reads_are_kept_per_session_under_safe_names() {
    assert_eq!(key("sub-1", "src/a.rs", "10:20"), "sub-1|src/a.rs|10:20");
    assert_eq!(session_file(&paths(), "a/b:c-d_e"), "/r/.git/relay/reads/a_b_c-d_e.json");
    assert_eq!(blob_file(&paths(), "abc"), "/r/.git/relay/reads/blobs/abc.txt");
}

#[test]
fn stored_texts_are_named_by_their_fnv_hash() {
    assert_eq!(content_hash(b""), "cbf29ce484222325");
    assert_eq!(content_hash(b"a"), "af63dc4c8601ec8c");
    assert_ne!(content_hash(b"line 30\n"), content_hash(b"line thirty\n"));
}
