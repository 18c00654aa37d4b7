//! One harness audited over a scope: pick its transcripts, read them
//! through the harness, and settle findings against today's config. The
//! harness lists, reads and judges; which transcripts are read, and what
//! its answers do to the findings, is decided here.

use vstd::prelude::*;

use super::findings::{count_f, Finding, FindingV, Status};
use super::{
    all_costs, all_hooks, by_modified, cached_f, calls_f, context_f, costs_view, hooks_view, is_newest, is_top,
    items_f, newest, report, report_fits, report_spec, resent_f, select, select_spec, tokens_f, transcripts_view, Now, Report,
    SessionAudit, Transcript, TranscriptV,
};
use crate::seqs::total;
use crate::fmt::push_text;
use crate::text::{chars_of, string_of};

verus! {

/// Started at or after `since`, when there is a bound.
pub open spec fn in_window(t: TranscriptV, since: Option<u64>) -> bool {
    match since {
        Some(s) => t.started >= s,
        None => true,
    }
}

pub open spec fn recent_spec(all: Seq<TranscriptV>, since: Option<u64>) -> Seq<TranscriptV> {
    all.filter(|t: TranscriptV| in_window(t, since))
}

/// What to read for an audit: the newest top-level session of the scope
/// (it shows what the config loads today; another project's newest would
/// not list this project's skills or servers, and mark them removed),
/// and the `sessions` newest top-level sessions started in the window,
/// with their subagents.
pub fn plan(all: Vec<Transcript>, since: Option<u64>, sessions: usize) -> (r: (Option<Transcript>, Vec<Transcript>))
    ensures
        match r.0 {
            Some(t) => exists|k: int| is_newest(transcripts_view(all@), k) && t.view() == transcripts_view(all@)[k],
            None => forall|j: int| 0 <= j < all@.len() ==> !is_top(#[trigger] transcripts_view(all@)[j]),
        },
        exists|o: Seq<usize>|
            {
                &&& by_modified(recent_spec(transcripts_view(all@), since), o)
                &&& transcripts_view(r.1@) == select_spec(
                    o.map_values(|i: usize| recent_spec(transcripts_view(all@), since)[i as int]),
                    sessions as nat,
                )
            },
{
    let newest = newest(all.as_slice());
    let ghost av = transcripts_view(all@);
    let mut recent: Vec<Transcript> = Vec::new();
    let mut i: usize = 0;
    while i < all.len()
        invariant
            av == transcripts_view(all@),
            i <= all@.len(),
            transcripts_view(recent@) == av.take(i as int).filter(|t: TranscriptV| in_window(t, since)),
        decreases all@.len() - i,
    {
        proof {
            crate::seqs::lemma_filter_step(av, |t: TranscriptV| in_window(t, since), i as int);
        }
        let keep = match since {
            Some(s) => all[i].started >= s,
            None => true,
        };
        if keep {
            let c = all[i].copy();
            let ghost before = transcripts_view(recent@);
            recent.push(c);
            proof {
                assert(transcripts_view(recent@) =~= before.push(c.view()));
            }
        }
        i += 1;
    }
    proof {
        assert(av.take(all@.len() as int) =~= av);
    }
    let ghost rv = transcripts_view(recent@);
    let chosen = select(recent, sessions);
    proof {
        assert(rv == recent_spec(av, since));
        let o = choose|o: Seq<usize>|
            by_modified(rv, o) && transcripts_view(chosen@) == select_spec(
                o.map_values(|i: usize| rv[i as int]),
                sessions as nat,
            );
        assert(by_modified(recent_spec(av, since), o));
    }
    (newest, chosen)
}

/// A transcript read through the harness, marked with when it was last
/// written.
pub fn seen_at(audit: SessionAudit, t: &Transcript) -> (r: SessionAudit)
    ensures
        r == (SessionAudit { seen: Some(t.modified), ..audit }),
{
    let mut a = audit;
    a.seen = Some(t.modified);
    a
}

/// The harness's word on a finding: today's config no longer has it,
/// for the reason given.
pub open spec fn settled_spec(f: FindingV, why: Option<Seq<char>>) -> FindingV {
    match why {
        Some(w) => FindingV { status: Status::Gone, fix: "Already removed: "@ + w, ..f },
        None => f,
    }
}

pub fn settle(f: &mut Finding, why: Option<String>)
    ensures
        final(f).view() == settled_spec(
            old(f).view(),
            match why {
                Some(w) => Some(w@),
                None => None,
            },
        ),
{
    if let Some(w) = why {
        let mut v = chars_of("Already removed: ");
        push_text(&mut v, w.as_str());
        f.status = Status::Gone;
        f.fix = string_of(&v);
    }
}

/// Each finding takes the harness's steps for it, in order.
pub fn give_steps(findings: &mut Vec<Finding>, steps: Vec<Vec<String>>)
    requires
        old(findings)@.len() == steps@.len(),
    ensures
        final(findings)@.len() == old(findings)@.len(),
        forall|i: int|
            0 <= i < final(findings)@.len() ==> (#[trigger] final(findings)@[i]).view() == (FindingV {
                steps: steps@[i].deep_view(),
                ..old(findings)@[i].view()
            }),
{
    let ghost start = findings@;
    let mut steps = steps;
    let ghost all = steps@;
    let mut i: usize = findings.len();
    while i > 0
        invariant
            i <= findings@.len(),
            findings@.len() == start.len(),
            steps@.len() == i,
            steps@ == all.take(i as int),
            all.len() == start.len(),
            forall|j: int| 0 <= j < i ==> #[trigger] findings@[j] == start[j],
            forall|j: int|
                i <= j < findings@.len() ==> (#[trigger] findings@[j]).view() == (FindingV {
                    steps: all[j].deep_view(),
                    ..start[j].view()
                }),
        decreases i,
    {
        i -= 1;
        let s = steps.pop().unwrap();
        proof {
            assert(s == all[i as int]);
        }
        let mut f = findings[i].copy();
        f.steps = s;
        findings.set(i, f);
        proof {
            assert(steps@ =~= all.take(i as int));
        }
    }
}


// ---------------------------------------------------------------------------
// The audit
// ---------------------------------------------------------------------------

/// What an audit needs from a harness. It lives here rather than on the
/// harness so the library never depends on the adapters; nothing is
/// assumed of what an adapter answers.
pub trait Source {
    fn transcripts(&self, root: Option<&str>) -> Vec<Transcript>;

    fn audit_session(&self, transcript: &str) -> Option<SessionAudit>;

    /// Hook commands in today's config, when the harness can tell.
    fn configured_hooks(&self, root: Option<&str>) -> Option<Vec<String>>;

    /// Why `f` no longer applies, when today's config shows it.
    fn settled(&self, f: &Finding) -> Option<String>;

    /// Concrete steps to act on `f` in this harness.
    fn advise(&self, f: &Finding, r: &Report) -> Vec<String>;
}

pub struct Scope<'a> {
    /// The project; `None` audits every project.
    pub root: Option<&'a str>,
    /// Only sessions started at or after this (seconds since the epoch).
    pub since: Option<u64>,
    /// Newest top-level sessions to read; their subagents come along.
    pub sessions: usize,
    /// The user's home, to resolve `~/` instruction files.
    pub home: Option<&'a str>,
}

/// One past the largest `usize`: a sum that reaches it does not fit.
pub open spec fn cap() -> nat {
    usize::MAX as nat + 1
}

pub open spec fn capped(n: nat) -> nat {
    if n < cap() {
        n
    } else {
        cap()
    }
}

fn cap_add(acc: u128, x: usize) -> (r: u128)
    requires
        acc <= cap(),
    ensures
        r == capped((acc + x) as nat),
{
    let c: u128 = usize::MAX as u128 + 1;
    if acc + x as u128 >= c {
        c
    } else {
        acc + x as u128
    }
}

/// Whether every sum a report makes of `ss` fits in a `usize`.
pub fn report_fits_exec(ss: &Vec<SessionAudit>) -> (r: bool)
    ensures
        r == report_fits(ss@),
{
    let mut calls: u128 = 0;
    let mut context: u128 = 0;
    let mut cached: u128 = 0;
    let mut tokens: u128 = 0;
    let mut resent: u128 = 0;
    let mut items: u128 = 0;
    let mut hooks: u128 = 0;
    let mut i: usize = 0;
    while i < ss.len()
        invariant
            i <= ss@.len(),
            calls == capped(total(ss@.take(i as int), calls_f())),
            context == capped(total(ss@.take(i as int), context_f())),
            cached == capped(total(ss@.take(i as int), cached_f())),
            tokens == capped(total(all_costs(ss@.take(i as int)), tokens_f())),
            resent == capped(total(all_costs(ss@.take(i as int)), resent_f())),
            items == capped(total(all_costs(ss@.take(i as int)), items_f())),
            hooks == capped(total(all_hooks(ss@.take(i as int)), count_f())),
        decreases ss@.len() - i,
    {
        let s = &ss[i];
        let ghost t0 = ss@.take(i as int);
        let ghost t1 = ss@.take(i + 1);
        proof {
            assert(t1.drop_last() =~= t0);
            assert(t1.last() == ss@[i as int]);
        }
        calls = cap_add(calls, s.usage.calls);
        context = cap_add(context, s.usage.context_sent);
        cached = cap_add(cached, s.usage.cached);
        let ghost cv = costs_view(s.costs@);
        let ghost a0 = all_costs(t0);
        let mut k: usize = 0;
        while k < s.costs.len()
            invariant
                k <= s.costs@.len(),
                cv == costs_view(s.costs@),
                tokens == capped(total(a0 + cv.take(k as int), tokens_f())),
                resent == capped(total(a0 + cv.take(k as int), resent_f())),
                items == capped(total(a0 + cv.take(k as int), items_f())),
            decreases s.costs@.len() - k,
        {
            let c = &s.costs[k];
            proof {
                assert((a0 + cv.take(k + 1)).drop_last() =~= a0 + cv.take(k as int));
                assert((a0 + cv.take(k + 1)).last() == c.view());
            }
            tokens = cap_add(tokens, c.tokens);
            resent = cap_add(resent, c.resent);
            items = cap_add(items, c.items);
            k += 1;
        }
        proof {
            assert(cv.take(s.costs@.len() as int) =~= cv);
            assert(all_costs(t1) =~= a0 + cv);
        }
        let ghost hv = hooks_view(s.hook_errors@);
        let ghost h0 = all_hooks(t0);
        let mut k: usize = 0;
        while k < s.hook_errors.len()
            invariant
                k <= s.hook_errors@.len(),
                hv == hooks_view(s.hook_errors@),
                hooks == capped(total(h0 + hv.take(k as int), count_f())),
            decreases s.hook_errors@.len() - k,
        {
            let h = &s.hook_errors[k];
            proof {
                assert((h0 + hv.take(k + 1)).drop_last() =~= h0 + hv.take(k as int));
                assert((h0 + hv.take(k + 1)).last() == h.view());
            }
            hooks = cap_add(hooks, h.count);
            k += 1;
        }
        proof {
            assert(hv.take(s.hook_errors@.len() as int) =~= hv);
            assert(all_hooks(t1) =~= h0 + hv);
        }
        i += 1;
    }
    proof {
        assert(ss@.take(ss@.len() as int) =~= ss@);
    }
    let m: u128 = usize::MAX as u128;
    calls <= m && context <= m && cached <= m && tokens <= m && resent <= m && items <= m && hooks <= m
}


/// `g` is `f` as the harness left it: unchanged, or settled as gone with
/// the reason it gave; its steps are the harness's own.
pub open spec fn as_settled(f: FindingV, g: FindingV) -> bool {
    let h = FindingV { steps: f.steps, ..g };
    h == f || (h == FindingV { status: Status::Gone, fix: h.fix, ..f } && crate::text::has_prefix(
        h.fix,
        "Already removed: "@,
    ))
}

/// `rep` has every total `base` has.
pub open spec fn same_totals(rep: Report, base: Report) -> bool {
    &&& rep.sessions == base.sessions
    &&& rep.calls == base.calls
    &&& rep.context_sent == base.context_sent
    &&& rep.cached == base.cached
    &&& rep.subagents == base.subagents
    &&& rep.subagent_context_sent == base.subagent_context_sent
    &&& rep.costs@ == base.costs@
    &&& rep.hook_errors@ == base.hook_errors@
    &&& rep.skills_listed == base.skills_listed
    &&& rep.skills_used@ == base.skills_used@
    &&& rep.skills_tracked == base.skills_tracked
    &&& rep.skills_unused@ == base.skills_unused@
    &&& rep.mcp_servers@ == base.mcp_servers@
}

/// What an audit owes whatever the harness answers: `rep` is the report
/// of some non-empty list of sessions whose sums fit, judged against the
/// scope's root and home, with each finding as `report` made it or
/// settled as gone by the harness.
#[verifier::opaque]
pub open spec fn audited(rep: Report, ss: Seq<SessionAudit>, now: Now, base: Report, scope_root: Option<Seq<char>>, scope_home: Option<Seq<char>>) -> bool {
    &&& ss.len() > 0
    &&& report_fits(ss)
    &&& report_spec(base, ss, &now)
    &&& match now.root {
        Some(x) => scope_root == Some(x@),
        None => scope_root is None,
    }
    &&& match now.home {
        Some(x) => scope_home == Some(x@),
        None => scope_home is None,
    }
    &&& same_totals(rep, base)
    &&& rep.findings@.len() == base.findings@.len()
    &&& forall|i: int|
        0 <= i < rep.findings@.len() ==> as_settled(base.findings@[i].view(), #[trigger] rep.findings@[i].view())
}

pub open spec fn str_opt(o: Option<&str>) -> Option<Seq<char>> {
    match o {
        Some(s) => Some(s@),
        None => None,
    }
}

/// One harness audited over a scope. `None` when no session in scope
/// could be read, or when the sessions read add up past what a `usize`
/// holds.
pub fn run<S: Source>(src: &S, scope: &Scope) -> (r: Option<Report>)
    ensures
        r matches Some(rep) ==> exists|ss: Seq<SessionAudit>, now: Now, base: Report|
            #[trigger] audited(rep, ss, now, base, str_opt(scope.root), str_opt(scope.home)),
{
    let all = src.transcripts(scope.root);
    let (newest, chosen) = plan(all, scope.since, scope.sessions);
    let mut audits: Vec<SessionAudit> = Vec::new();
    let mut i: usize = 0;
    while i < chosen.len()
        invariant
            i <= chosen@.len(),
        decreases chosen@.len() - i,
    {
        let t = &chosen[i];
        match src.audit_session(t.path.as_str()) {
            Some(a) => audits.push(seen_at(a, t)),
            None => {},
        }
        i += 1;
    }
    if audits.len() == 0 || !report_fits_exec(&audits) {
        return None;
    }
    let newest_audit = match &newest {
        Some(t) => src.audit_session(t.path.as_str()),
        None => None,
    };
    let now = Now {
        hooks: src.configured_hooks(scope.root),
        newest: newest_audit,
        newest_started: match &newest {
            Some(t) => Some(t.started),
            None => None,
        },
        root: match scope.root {
            Some(r) => Some(r.to_string()),
            None => None,
        },
        home: match scope.home {
            Some(h) => Some(h.to_string()),
            None => None,
        },
    };
    let ghost ss = audits@;
    let base = report(audits, &now);
    let r = settle_all(src, base);
    proof {
        assert(audited(r, ss, now, base, str_opt(scope.root), str_opt(scope.home))) by {
            reveal(audited);
        }
        assert(exists|ss: Seq<SessionAudit>, now: Now, base: Report|
            #[trigger] audited(r, ss, now, base, str_opt(scope.root), str_opt(scope.home)));
    }
    let out = Some(r);
    proof {
        assert(out->0 == r);
        assert(out matches Some(rep) ==> exists|ss: Seq<SessionAudit>, now: Now, base: Report|
            #[trigger] audited(rep, ss, now, base, str_opt(scope.root), str_opt(scope.home)));
    }
    out
}

/// The harness's word on each finding of `base`: already fixed, and how
/// to fix it.
fn settle_all<S: Source>(src: &S, base: Report) -> (r: Report)
    ensures
        same_totals(r, base),
        r.findings@.len() == base.findings@.len(),
        forall|i: int|
            0 <= i < r.findings@.len() ==> as_settled(base.findings@[i].view(), #[trigger] r.findings@[i].view()),
{
    let mut r = base;
    let mut settled: Vec<Finding> = Vec::new();
    let mut j: usize = 0;
    while j < r.findings.len()
        invariant
            r == base,
            j <= r.findings@.len(),
            settled@.len() == j,
            forall|i: int| 0 <= i < j ==> as_settled(base.findings@[i].view(), #[trigger] settled@[i].view()),
        decreases r.findings@.len() - j,
    {
        let mut f = r.findings[j].copy();
        let why = src.settled(&r.findings[j]);
        settle(&mut f, why);
        proof {
            let fv = base.findings@[j as int].view();
            let h = FindingV { steps: fv.steps, ..f.view() };
            if h != fv {
                let w = why->0@;
                reveal_strlit("Already removed: ");
                assert(h.fix == "Already removed: "@ + w);
                assert(h.fix.take(17) =~= "Already removed: "@);
            }
        }
        settled.push(f);
        j += 1;
    }
    r.findings = settled;
    let ghost mid = r;
    let mut steps: Vec<Vec<String>> = Vec::new();
    let mut k: usize = 0;
    while k < r.findings.len()
        invariant
            r == mid,
            k <= r.findings@.len(),
            steps@.len() == k,
        decreases r.findings@.len() - k,
    {
        steps.push(src.advise(&r.findings[k], &r));
        k += 1;
    }
    give_steps(&mut r.findings, steps);
    proof {
        assert forall|i: int| 0 <= i < r.findings@.len() implies as_settled(
            base.findings@[i].view(),
            #[trigger] r.findings@[i].view(),
        ) by {
            assert(as_settled(base.findings@[i].view(), mid.findings@[i].view()));
        }
    }
    r
}

} // verus!
