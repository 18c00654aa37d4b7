use relay::bench::{expected_lines, totals, GroupBy, Sample, ShellCall, Totals};

fn sample(filter: &str, family: &str, wrapped: bool, tokens_in: usize, tokens_out: usize) -> Sample {
    Sample {
        name: "s".into(),
        cmd: "cmd".into(),
        family: family.into(),
        filter: filter.into(),
        wrapped,
        tokens_in,
        tokens_out,
        signal_kept: 2,
        signal_total: 3,
        expect_kept: 1,
        expect_total: 1,
        missing: vec![],
        refetched: false,
    }
}

#[test]
fn totals_group_by_filter_largest_input_first() {
    let ss = vec![
        sample("cargo", "cargo", true, 100, 10),
        sample("git", "git", false, 500, 50),
        sample("cargo", "cargo", true, 300, 30),
        sample("jest", "npm", true, 400, 40),
    ];
    let (rows, all) = totals(&ss, GroupBy::Filter);
    let keys: Vec<&str> = rows.iter().map(|t| t.key.as_str()).collect();
    assert_eq!(keys, vec!["git", "cargo", "jest"], "500, then 400 and 400 by name");
    assert_eq!(rows[1].samples, 2);
    assert_eq!(rows[1].tokens_in, 400);
    assert_eq!(rows[1].tokens_out, 40);
    assert_eq!(all.key, "total");
    assert_eq!(all.samples, 4);
    assert_eq!(all.tokens_in, 1300);
    assert_eq!(all.tokens_out, 130);
    assert_eq!(all.tokens_out_effective, 10 + 500 + 30 + 40, "an unwrapped call costs its input");
    assert_eq!(all.wrapped, 3);
    assert_eq!(all.signal_kept, 8);
}

#[test]
fn totals_can_group_by_family() {
    let ss = vec![sample("jest", "npm", true, 1, 1), sample("vitest", "npm", true, 2, 1)];
    let (rows, _) = totals(&ss, GroupBy::Family);
    assert_eq!(rows.len(), 1);
    assert_eq!(rows[0].key, "npm");
    assert_eq!(rows[0].samples, 2);
}

#[test]
fn no_samples_no_rows() {
    let (rows, all) = totals(&[], GroupBy::Filter);
    assert!(rows.is_empty());
    assert_eq!(all.samples, 0);
}

#[test]
fn adding_a_sample_counts_it() {
    let mut t = Totals::default();
    t.add(&sample("cargo", "cargo", false, 10, 3));
    assert_eq!((t.samples, t.wrapped, t.tokens_in, t.tokens_out, t.tokens_out_effective), (1, 0, 10, 3, 10));
}

#[test]
fn keep_files_list_trimmed_lines_without_comments() {
    assert_eq!(expected_lines("# must survive\n  error[E0308]: x \n\n#comment\nFAILED a\n"), vec!["error[E0308]: x", "FAILED a"]);
    let call = ShellCall { cmd: "ls".into(), output: "a\n".into() };
    assert_eq!(call.cmd, "ls");
}
