use relay::outputs::{for_session, meta_file, merge, out_file, valid_id, OutputMeta, Unknown};

fn meta(id: &str, ts: &str, session: Option<&str>) -> OutputMeta {
    OutputMeta {
        id: id.to_string(),
        ts: ts.to_string(),
        session: session.map(|s| s.to_string()),
        cwd: "/repo".to_string(),
        cmd: "cargo test".to_string(),
        exit: 0,
        filter: "cargo".to_string(),
        bytes_in: 1000,
        bytes_out: 100,
        tokens_in: 250,
        tokens_out: 25,
    }
}

#[test]
fn list_dedupes_an_id_present_in_both_tiers() {
    // The local tier is read first, then the spill: the same id in both lists once.
    let mut local = meta("o_same", "2026-09-22T10:00:00Z", None);
    local.cwd = "/local".to_string();
    let spilled = meta("o_same", "2026-09-22T10:00:00Z", None);
    let got = merge(&vec![local, spilled]);
    assert_eq!(got.len(), 1);
    assert_eq!(got[0].cwd, "/local", "the local tier's sidecar is the one kept");
}

#[test]
fn outputs_list_oldest_first_then_by_id() {
    let found = vec![
        meta("o_c", "2026-09-22T10:00:02Z", None),
        meta("o_b", "2026-09-22T10:00:01Z", None),
        meta("o_a", "2026-09-22T10:00:02Z", None),
    ];
    let ids: Vec<String> = merge(&found).into_iter().map(|m| m.id).collect();
    assert_eq!(ids, vec!["o_b", "o_a", "o_c"]);
}

#[test]
fn a_session_sees_only_its_own_outputs() {
    let all = vec![
        meta("o_1", "1", Some("s1")),
        meta("o_2", "2", Some("s2")),
        meta("o_3", "3", None),
        meta("o_4", "4", Some("s1")),
    ];
    let ids: Vec<String> = for_session(&all, "s1").into_iter().map(|m| m.id).collect();
    assert_eq!(ids, vec!["o_1", "o_4"]);
}

#[test]
fn ids_with_a_path_in_them_are_refused() {
    assert!(valid_id(" o_abc "));
    assert!(!valid_id("   "));
    assert!(!valid_id("../etc/passwd"));
    assert!(!valid_id("a/b"));
    assert!(!valid_id("a\\b"));
    assert!(!valid_id("a..b"));
}

#[test]
fn the_pair_lives_side_by_side() {
    assert_eq!(meta_file("/r/.git/relay/outputs", "o_1"), "/r/.git/relay/outputs/o_1.json");
    assert_eq!(out_file("/r/.git/relay/outputs", "o_1"), "/r/.git/relay/outputs/o_1.out");
    assert_eq!(Unknown("o_x".to_string()).message(), "no stored output with id o_x");
}

#[test]
fn saved_tokens_never_go_below_zero() {
    let mut m = meta("o_1", "1", None);
    assert_eq!(m.saved(), 225);
    m.tokens_out = 300;
    assert_eq!(m.saved(), 0);
}
