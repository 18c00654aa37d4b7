use relay::compile::from_handoffs;

#[test]
fn decisions_not_yet_remembered_are_candidates_once() {
    let newer = "---\nsession: s2\nended: 2026-09-22T10:00:00Z\n---\n## Decisions\n- Backoff: exponential\n- DB: postgres\n## Asked\n- x\n";
    let older = "---\nsession: s1\nended: 2026-09-20T10:00:00Z\n---\n## Decisions\n- DB: postgres\n- Auth: oauth\n";
    let got = from_handoffs(&[newer.into(), older.into()], &vec!["Auth: oauth".to_string()]);
    let texts: Vec<&str> = got.iter().map(|c| c.text.as_str()).collect();
    assert_eq!(texts, ["Backoff: exponential", "DB: postgres"]);
    assert_eq!((got[1].session.as_deref(), got[1].ended.as_str()), (Some("s2"), "2026-09-22"));
}

#[test]
fn a_handoff_without_fields_still_gives_its_decisions() {
    let body = "## Decisions\n-   Keep it   \n## Decisions\n- Twice\n";
    let got = from_handoffs(&[body.to_string()], &vec![]);
    assert_eq!(got.len(), 2);
    assert_eq!(got[0].text, "Keep it");
    assert_eq!(got[0].session, None);
    assert_eq!(got[0].ended, "");
    assert!(from_handoffs(&[], &vec![]).is_empty());
}
