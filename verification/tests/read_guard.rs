use relay::read_guard::{guard, wants_outline};

fn plan() -> String {
    let body = "Lorem ipsum dolor sit amet, consectetur adipiscing elit.\n".repeat(40);
    let doc: String = (1..=40).map(|i| format!("## T-{i} Task {i}\n")).collect::<Vec<_>>().join(&body);
    format!("# Plan\n{doc}")
}

#[test]
fn a_big_doc_read_whole_gets_its_outline() {
    let text = plan();
    let size = text.len() as u64;
    assert!(wants_outline("md", false, Some(size)));
    let g = guard("docs/plan.md", size, text.as_bytes()).unwrap();
    assert!(g.message.starts_with("relay: docs/plan.md is "), "{}", g.message);
    assert!(g.message.contains("\nL2-42          T-1 Task 1\n"), "{}", g.message);
    assert!(g.message.contains("(offset 2 and limit 41 for \"T-1 Task 1\")"), "{}", g.message);
    assert!(g.file_tokens > 15_000, "{}", g.file_tokens);
    assert!(!wants_outline("md", true, Some(size)), "a ranged read goes through");
}

#[test]
fn small_binary_and_missing_files_go_through() {
    assert!(!wants_outline("md", false, Some(4)));
    assert!(wants_outline("dat", false, Some(100_000)));
    assert!(guard("blob.dat", 100_000, &vec![0u8; 100_000]).is_none());
    assert!(!wants_outline("md", false, None));
    assert!(!wants_outline("PNG", false, Some(100_000)));
    assert!(!wants_outline("md", false, Some(9 * 1024 * 1024)));
}
