use relay::agents_md::{block, with_block};

#[test]
fn the_block_is_appended_once_and_updated_in_place() {
    let b1 = block(".relay");
    assert_eq!(with_block("", &b1), Some(b1.clone()));
    let with = with_block("# Rules\n\nBe kind.\n", &b1).unwrap();
    assert_eq!(with, format!("# Rules\n\nBe kind.\n\n{b1}"));
    assert_eq!(with_block(&with, &b1), None);
    let reflowed =
        with.replace("<!-- relay -->\n", "<!-- relay -->\n\n").replace("one file each;", "one file each;\n");
    assert_eq!(with_block(&reflowed, &b1), None, "a reflowed block is the same block");
    let b2 = block(".git/relay/shared");
    let updated = with_block(&format!("{with}\n# After\n"), &b2).unwrap();
    assert!(updated.contains(".git/relay/shared/project.md") && !updated.contains("`.relay/`"), "{updated}");
    assert!(updated.ends_with("# After\n"), "{updated}");
}

#[test]
fn a_block_in_blank_text_is_the_whole_text() {
    let b = block("x");
    assert_eq!(with_block("  \n\t", &b), Some(b.clone()));
    assert!(b.starts_with("<!-- relay -->\nBefore starting, read `x/project.md`."));
    assert!(b.ends_with("<!-- /relay -->\n"));
}
