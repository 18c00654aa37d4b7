use relay::audit::findings::{Finding, Kind, Severity, Status};
use std::cell::RefCell;

use relay::audit::run::{give_steps, plan, report_fits_exec, run, seen_at, settle, Scope, Source};
use relay::audit::{Report, SessionAudit, Transcript};

fn t(name: &str, secs: u64) -> Transcript {
    Transcript { path: name.to_string(), id: name.into(), parent: None, started: secs, modified: secs }
}

fn finding(headline: &str) -> Finding {
    Finding {
        severity: Severity::Waste,
        kind: Kind::Skills,
        status: Status::Active,
        headline: headline.to_string(),
        subject: None,
        fix: "Remove it.".to_string(),
        steps: vec![],
        resent: 100,
        last_seen: None,
    }
}

/// This project's session, and a newer one in another project.
struct Fake {
    audited: RefCell<Vec<String>>,
}

impl Source for Fake {
    fn transcripts(&self, root: Option<&str>) -> Vec<Transcript> {
        match root {
            Some(_) => vec![t("this", 10)],
            None => vec![t("this", 10), t("other-project", 20)],
        }
    }
    fn audit_session(&self, path: &str) -> Option<SessionAudit> {
        self.audited.borrow_mut().push(path.to_string());
        Some(SessionAudit::default())
    }
    fn configured_hooks(&self, _: Option<&str>) -> Option<Vec<String>> {
        None
    }
    fn settled(&self, _: &Finding) -> Option<String> {
        None
    }
    fn advise(&self, _: &Finding, _: &Report) -> Vec<String> {
        Vec::new()
    }
}

#[test]
fn project_audit_judges_findings_against_its_own_newest_session() {
    let h = Fake { audited: RefCell::new(Vec::new()) };
    run(&h, &Scope { root: Some("/repo"), since: None, sessions: 5, home: None });
    assert!(!h.audited.borrow().contains(&"other-project".to_string()), "{:?}", h.audited.borrow());
}

#[test]
fn an_audit_of_every_project_reads_them_all() {
    let h = Fake { audited: RefCell::new(Vec::new()) };
    let r = run(&h, &Scope { root: None, since: None, sessions: 5, home: None });
    assert!(r.is_some());
    assert!(h.audited.borrow().contains(&"other-project".to_string()));
}

#[test]
fn nothing_read_is_no_report() {
    let h = Fake { audited: RefCell::new(Vec::new()) };
    assert!(run(&h, &Scope { root: Some("/repo"), since: Some(100), sessions: 5, home: None }).is_none());
    assert!(report_fits_exec(&vec![SessionAudit::default()]));
}

#[test]
fn a_plan_reads_the_projects_own_sessions() {
    // The project's own transcripts; a newer one in another project is not among them.
    let (newest, read) = plan(vec![t("this", 10)], None, 5);
    let mut audited: Vec<String> = read.iter().map(|t| t.path.clone()).collect();
    audited.extend(newest.map(|t| t.path));
    assert!(!audited.contains(&"other-project".to_string()), "{audited:?}");
    assert!(audited.contains(&"this".to_string()));
}

#[test]
fn only_sessions_started_in_the_window_are_read() {
    let (newest, read) = plan(vec![t("old", 10), t("new", 20)], Some(15), 5);
    let read: Vec<String> = read.into_iter().map(|t| t.path).collect();
    assert_eq!(read, vec!["new"]);
    assert_eq!(newest.map(|t| t.path), Some("new".to_string()));
    let (newest, read) = plan(vec![t("old", 10)], Some(15), 5);
    assert!(read.is_empty());
    assert_eq!(newest.map(|t| t.path), Some("old".to_string()), "the newest ignores the window");
}

#[test]
fn a_read_transcript_carries_when_it_was_written() {
    let a = seen_at(SessionAudit::default(), &Transcript { path: "p".into(), id: "p".into(), parent: None, started: 1, modified: 9 });
    assert_eq!(a.seen, Some(9));
}

#[test]
fn a_settled_finding_is_gone_with_the_reason() {
    let mut f = finding("Skills listing");
    settle(&mut f, None);
    assert_eq!(f.status, Status::Active);
    settle(&mut f, Some("no skills are configured".to_string()));
    assert_eq!(f.status, Status::Gone);
    assert_eq!(f.fix, "Already removed: no skills are configured");
}

#[test]
fn each_finding_takes_its_own_steps() {
    let mut fs = vec![finding("a"), finding("b")];
    give_steps(&mut fs, vec![vec!["one".to_string()], vec!["two".to_string(), "three".to_string()]]);
    assert_eq!(fs[0].steps, vec!["one"]);
    assert_eq!(fs[1].steps, vec!["two", "three"]);
}
