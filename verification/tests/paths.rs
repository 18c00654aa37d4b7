use relay::handoff::path_for;
use relay::paths::{join, Paths};

fn paths() -> Paths {
    Paths { root: "/r".into(), shared: "/r/.relay".into(), local: "/r/.git/relay".into(), in_git: true }
}

#[test]
fn joins_follow_path_join() {
    assert_eq!(join("/a", "b"), "/a/b");
    assert_eq!(join("/a/", "b"), "/a/b");
    assert_eq!(join("", "b"), "b");
    assert_eq!(join("/a", "/etc/x"), "/etc/x", "an absolute name replaces the base");
    assert_eq!(join("/a", ""), "/a/");
}

#[test]
fn a_handoff_lives_under_the_local_tier() {
    assert_eq!(path_for(&paths(), "s1"), "/r/.git/relay/handoffs/s1.md");
    assert_eq!(path_for(&paths(), "/x"), "/x.md");
}
