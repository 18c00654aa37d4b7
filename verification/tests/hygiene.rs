use relay::hygiene::{review, Advice};
use relay::memory::{Item, Kind};

fn item(title: &str) -> Item {
    Item {
        kind: Kind::Rule,
        path: format!("{title}.md"),
        title: title.to_string(),
        created: String::new(),
        sha: None,
        about: vec![],
    }
}

#[test]
fn near_duplicates_stale_overlong_and_unseen() {
    let items = vec![
        item("Run cargo test before every commit"),
        item("Run cargo test before each commit"),
        item("Amounts are in cents"),
        item(&"very long rule ".repeat(12)),
    ];
    // The third item has expired; the brief decides that from its date.
    let expired = vec![false, false, true, false];
    let stale = vec![vec![], vec!["src/pay.rs".to_string()], vec![], vec![]];
    let got = review(&items, &stale, &expired);
    assert!(got.contains(&Advice::Merge(0, 1)), "{got:?}");
    assert!(got.contains(&Advice::Stale(1, vec!["src/pay.rs".into()])), "{got:?}");
    assert!(got.contains(&Advice::Expired(2)), "{got:?}");
    assert!(got.contains(&Advice::Overlong(3)), "{got:?}");
    assert!(!got.iter().any(|a| matches!(a, Advice::Unseen(_))), "all fit: {got:?}");
    let many: Vec<Item> = (0..40).map(|i| item(&format!("Rule number {i} about a distinct topic {i}"))).collect();
    let mut all = review(&many, &[], &[]);
    let last = all.pop();
    match last {
        Some(Advice::Unseen(left_out)) => assert_eq!(left_out.first(), Some(&14)),
        other => panic!("expected unseen, got {other:?}"),
    }
}

#[test]
fn expired_items_are_not_also_stale() {
    let items = vec![item("Amounts are in cents")];
    let stale = vec![vec!["src/pay.rs".to_string()]];
    let got = review(&items, &stale, &[true]);
    assert_eq!(got, vec![Advice::Expired(0)]);
}

#[test]
fn unrelated_titles_are_not_merged() {
    let items = vec![item("Amounts are in cents"), item("Deploys go through staging first")];
    let got = review(&items, &[], &[]);
    assert!(got.is_empty(), "{got:?}");
}

#[test]
fn short_words_do_not_count_toward_similarity() {
    // Only words of three or more characters are compared.
    let items = vec![item("a b c of it"), item("a b c of it")];
    let got = review(&items, &[], &[]);
    assert!(!got.contains(&Advice::Merge(0, 1)), "{got:?}");
}
