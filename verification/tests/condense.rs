use relay::condense::{passes, record, shell_script, view};

#[test]
fn stderr_joins_stdout_inside_the_shell() {
    assert_eq!(shell_script("cargo test"), "{\ncargo test\n} 2>&1");
}

#[test]
fn short_or_raw_output_passes_through() {
    assert!(passes(true, &"x".repeat(10_000)));
    assert!(passes(false, "ok\n"));
    assert!(!passes(false, &"x".repeat(10_000)));
}

#[test]
fn a_cut_view_names_its_original() {
    let got = view("3 passed", true, "raw", Some("o_1"), 12_000, 300);
    assert_eq!(got, "3 passed\n[relay 12.0k→300 tokens · original: relay get o_1]");
}

#[test]
fn a_cut_view_without_an_original_gives_way_to_the_whole_output() {
    assert_eq!(view("3 passed", true, "all of it", None, 12_000, 300), "all of it");
    assert_eq!(view("unchanged", false, "all of it", Some("o_1"), 10, 10), "unchanged");
}

#[test]
fn the_record_counts_bytes_and_tokens_of_both_sides() {
    let m = record(
        "o_1".into(),
        "2026-09-22T10:00:00Z".into(),
        Some("s1".into()),
        "/repo".into(),
        "cargo test",
        1,
        "cargo",
        "abcdefghij",
        "abc",
    );
    assert_eq!((m.bytes_in, m.bytes_out, m.tokens_in, m.tokens_out), (10, 3, 3, 1));
    assert_eq!(m.cmd, "cargo test");
    assert_eq!(m.exit, 1);
    assert_eq!(m.saved(), 2);
}
