//! Findings: config sources and failing hooks worth acting on, each told
//! apart as live or history against what the harness loads today.

use vstd::prelude::*;

use super::{cost_at, costs_view, hooks_view, Cost, CostV, HookError, HookErrorV, Now, Origin};
use crate::fmt::{dec, human_tokens, human_tokens_spec, push_all, push_dec, push_text, truncate_chars, truncate_spec};
use crate::order::{num_order, order_by_num};
use crate::paths::{join, join_spec};
use crate::seqs::{lemma_filter_step, lemma_total_bound, lemma_total_prefix, lemma_total_prefix_le, lemma_total_push, lemma_total_update, total};
use crate::text::{
    chars_eq, chars_of, contains, contains_seq, find_spec, has_prefix, join as join_words, join_spec as join_words_spec,
    locate, slice, split_whitespace, starts_with, str_eq, string_of, words_of,
};
use crate::time::{short_utc, short_utc_spec};
use crate::text::{strip_all, strip_all_exec};

verus! {

#[derive(Debug, Clone, Copy, PartialEq, Eq, Structural)]
pub enum Severity {
    Broken,
    Waste,
}

/// What a finding is about, so an adapter can say how to fix it there.
#[derive(Debug, Clone, Copy, PartialEq, Eq, Structural)]
pub enum Kind {
    FailingHooks,
    HookOutput,
    Skills,
    Instructions,
    Mcp,
    ToolNames,
    Agents,
    AutoReview,
    Other,
}

/// Whether today's config still produces it.
#[derive(Debug, Clone, Copy, PartialEq, Eq, Structural)]
pub enum Status {
    Active,
    /// Still there, with fewer entries (skills, servers) than audited.
    Reduced { now: usize },
    Gone,
    Unknown,
}

pub struct Finding {
    pub severity: Severity,
    pub kind: Kind,
    pub status: Status,
    pub headline: String,
    /// The file or hook command it is about, when there is one.
    pub subject: Option<String>,
    pub fix: String,
    /// Concrete steps for this harness; filled by the adapter.
    pub steps: Vec<String>,
    /// Tokens resent across the audited sessions; 0 when not a token cost.
    pub resent: usize,
    /// Newest audited session it appeared in.
    pub last_seen: Option<String>,
}

#[verifier::ext_equal]
pub struct FindingV {
    pub severity: Severity,
    pub kind: Kind,
    pub status: Status,
    pub headline: Seq<char>,
    pub subject: Option<Seq<char>>,
    pub fix: Seq<char>,
    pub steps: Seq<Seq<char>>,
    pub resent: nat,
    pub last_seen: Option<Seq<char>>,
}

pub open spec fn opt_str(o: Option<String>) -> Option<Seq<char>> {
    match o {
        Some(s) => Some(s@),
        None => None,
    }
}

impl Finding {
    pub open spec fn view(&self) -> FindingV {
        FindingV {
            severity: self.severity,
            kind: self.kind,
            status: self.status,
            headline: self.headline@,
            subject: opt_str(self.subject),
            fix: self.fix@,
            steps: self.steps.deep_view(),
            resent: self.resent as nat,
            last_seen: opt_str(self.last_seen),
        }
    }

    pub fn is_history(&self) -> (r: bool)
        ensures
            r == (self.status == Status::Gone),
    {
        match self.status {
            Status::Gone => true,
            _ => false,
        }
    }
}

pub open spec fn findings_view(v: Seq<Finding>) -> Seq<FindingV> {
    v.map_values(|f: Finding| f.view())
}

// ---------------------------------------------------------------------------
// Commands
// ---------------------------------------------------------------------------

/// A command on one line: its words joined by single spaces.
pub open spec fn flat(cmd: Seq<char>) -> Seq<char> {
    join_words_spec(words_of(cmd), seq![' '])
}

fn flat_exec(cmd: &str) -> (r: Vec<char>)
    ensures
        r@ == flat(cmd@),
{
    let c = chars_of(cmd);
    let w = split_whitespace(&c);
    let sep = vec![' '];
    proof {
        assert(sep@ =~= seq![' ']);
    }
    join_words(&w, &sep)
}

pub open spec fn ends_spec(cmd: Seq<char>) -> Seq<char> {
    let f = flat(cmd);
    if f.len() <= 70 {
        f
    } else {
        f.take(25) + " … "@ + f.skip(f.len() - 40)
    }
}

/// Long commands keep their start and their end, where the script name is.
pub fn ends(cmd: &str) -> (r: String)
    ensures
        r@ == ends_spec(cmd@),
{
    let f = flat_exec(cmd);
    if f.len() <= 70 {
        return string_of(&f);
    }
    let mut out = slice(&f, 0, 25);
    push_text(&mut out, " … ");
    let tail = slice(&f, f.len() - 40, f.len());
    push_all(&mut out, &tail);
    proof {
        assert(f@.subrange(0, 25) =~= f@.take(25));
        assert(f@.subrange(f@.len() - 40, f@.len() as int) =~= f@.skip(f@.len() - 40));
    }
    string_of(&out)
}

/// Adapters shorten long hook commands with a trailing `…`.
pub open spec fn same_command_spec(configured: Seq<char>, label: Seq<char>) -> bool {
    let f = flat(configured);
    if label.len() > 0 && label.last() == '…' {
        has_prefix(f, label.drop_last())
    } else {
        f == label
    }
}

pub fn same_command(configured: &str, label: &str) -> (r: bool)
    ensures
        r == same_command_spec(configured@, label@),
{
    let f = flat_exec(configured);
    let l = chars_of(label);
    if l.len() > 0 && l[l.len() - 1] == '…' {
        let p = slice(&l, 0, l.len() - 1);
        proof {
            assert(l@.subrange(0, l@.len() - 1) =~= l@.drop_last());
        }
        starts_with(&f, &p)
    } else {
        chars_eq(&f, &l)
    }
}

/// `Hook output on <event>: <command>` → the command.
pub open spec fn hook_command_spec(source: Seq<char>) -> Option<Seq<char>> {
    let p = "Hook output on "@;
    if has_prefix(source, p) {
        let rest = source.skip(p.len() as int);
        match find_spec(rest, ": "@) {
            Some(i) => Some(rest.skip(i + 2)),
            None => None,
        }
    } else {
        None
    }
}

fn hook_command(source: &[char]) -> (r: Option<Vec<char>>)
    ensures
        match r {
            Some(c) => hook_command_spec(source@) == Some(c@),
            None => hook_command_spec(source@) is None,
        },
{
    let p = chars_of("Hook output on ");
    if !starts_with(source, &p) {
        return None;
    }
    let rest = slice(source, p.len(), source.len());
    let sep = chars_of(": ");
    proof {
        reveal_strlit(": ");
        assert(sep@.len() == 2);
        assert(rest@ =~= source@.skip(p@.len() as int));
    }
    match locate(&rest, &sep) {
        Some(i) => {
            let cmd = slice(&rest, i + 2, rest.len());
            proof {
                assert(cmd@ =~= rest@.skip(i + 2));
            }
            Some(cmd)
        },
        None => None,
    }
}

// ---------------------------------------------------------------------------
// Kinds, subjects, fixes
// ---------------------------------------------------------------------------

pub open spec fn kind_spec(source: Seq<char>) -> Kind {
    if source == "Skills listing"@ {
        Kind::Skills
    } else if has_prefix(source, "Instruction file "@) {
        Kind::Instructions
    } else if has_prefix(source, "Hook output"@) || has_prefix(source, "Hook or plugin output"@) {
        Kind::HookOutput
    } else if has_prefix(source, "MCP server instructions"@) {
        Kind::Mcp
    } else if has_prefix(source, "Deferred tool names"@) {
        Kind::ToolNames
    } else if has_prefix(source, "Agent types"@) {
        Kind::Agents
    } else if has_prefix(source, "Auto-review"@) {
        Kind::AutoReview
    } else {
        Kind::Other
    }
}

fn prefixed(s: &[char], p: &str) -> (r: bool)
    ensures
        r == has_prefix(s@, p@),
{
    let q = chars_of(p);
    starts_with(s, &q)
}

fn kind_of(source: &[char]) -> (k: Kind)
    ensures
        k == kind_spec(source@),
{
    let skills = chars_of("Skills listing");
    if chars_eq(source, &skills) {
        Kind::Skills
    } else if prefixed(source, "Instruction file ") {
        Kind::Instructions
    } else if prefixed(source, "Hook output") || prefixed(source, "Hook or plugin output") {
        Kind::HookOutput
    } else if prefixed(source, "MCP server instructions") {
        Kind::Mcp
    } else if prefixed(source, "Deferred tool names") {
        Kind::ToolNames
    } else if prefixed(source, "Agent types") {
        Kind::Agents
    } else if prefixed(source, "Auto-review") {
        Kind::AutoReview
    } else {
        Kind::Other
    }
}

pub open spec fn subject_spec(source: Seq<char>, kind: Kind) -> Option<Seq<char>> {
    match kind {
        Kind::Instructions => if has_prefix(source, "Instruction file "@) {
            Some(source.skip(17))
        } else {
            None
        },
        Kind::HookOutput => hook_command_spec(source),
        _ => None,
    }
}

fn subject_of(source: &[char], kind: Kind) -> (r: Option<Vec<char>>)
    ensures
        match r {
            Some(s) => subject_spec(source@, kind) == Some(s@),
            None => subject_spec(source@, kind) is None,
        },
{
    match kind {
        Kind::Instructions => {
            if prefixed(source, "Instruction file ") {
                proof {
                    reveal_strlit("Instruction file ");
                }
                let s = slice(source, 17, source.len());
                proof {
                    assert(s@ =~= source@.skip(17));
                }
                Some(s)
            } else {
                None
            }
        },
        Kind::HookOutput => hook_command(source),
        _ => None,
    }
}

pub open spec fn fix_for_spec(kind: Kind, source: Seq<char>) -> Seq<char> {
    match kind {
        Kind::Skills => "The listing loads in every project; a skill you rarely need can live in the projects that use it"@,
        Kind::Instructions => if contains_seq(source, "/projects/"@) || contains_seq(source, "/memory/"@) {
            "Project memory: worth pruning entries that no longer hold"@
        } else if has_prefix(source, "Instruction file ~/"@) {
            "Applies to every project below it: what only some projects need can move into theirs"@
        } else {
            "Worth trimming to what the agent needs on every call"@
        },
        Kind::HookOutput => "If the agent does not need what it prints, the hook can run silently"@,
        Kind::Mcp | Kind::ToolNames => "Servers you need only in some projects can be enabled just there"@,
        Kind::Agents => "Agent types you no longer use can go"@,
        Kind::AutoReview => "Every approval sends the conversation to a second model to vet; vetting approvals yourself avoids it"@,
        Kind::Other | Kind::FailingHooks => "Worth trimming to what the agent needs on every call"@,
    }
}

fn fix_for(kind: Kind, source: &[char]) -> (r: Vec<char>)
    ensures
        r@ == fix_for_spec(kind, source@),
{
    match kind {
        Kind::Skills => chars_of(
            "The listing loads in every project; a skill you rarely need can live in the projects that use it",
        ),
        Kind::Instructions => {
            let a = chars_of("/projects/");
            let b = chars_of("/memory/");
            if contains(source, &a) || contains(source, &b) {
                chars_of("Project memory: worth pruning entries that no longer hold")
            } else if prefixed(source, "Instruction file ~/") {
                chars_of(
                    "Applies to every project below it: what only some projects need can move into theirs",
                )
            } else {
                chars_of("Worth trimming to what the agent needs on every call")
            }
        },
        Kind::HookOutput => chars_of(
            "If the agent does not need what it prints, the hook can run silently",
        ),
        Kind::Mcp | Kind::ToolNames => chars_of(
            "Servers you need only in some projects can be enabled just there",
        ),
        Kind::Agents => chars_of("Agent types you no longer use can go"),
        Kind::AutoReview => chars_of(
            "Every approval sends the conversation to a second model to vet; vetting approvals yourself avoids it",
        ),
        Kind::Other | Kind::FailingHooks => chars_of(
            "Worth trimming to what the agent needs on every call",
        ),
    }
}

// ---------------------------------------------------------------------------
// Live or history
// ---------------------------------------------------------------------------

/// What the findings read of `Now`.
#[verifier::ext_equal]
pub struct NowV {
    pub hooks: Option<Seq<Seq<char>>>,
    pub newest_costs: Option<Seq<CostV>>,
    pub newest_started: Option<u64>,
    pub root: Option<Seq<char>>,
    pub home: Option<Seq<char>>,
}

pub open spec fn now_view(n: &Now) -> NowV {
    NowV {
        hooks: match n.hooks {
            Some(h) => Some(h.deep_view()),
            None => None,
        },
        newest_costs: match n.newest {
            Some(s) => Some(costs_view(s.costs@)),
            None => None,
        },
        newest_started: n.newest_started,
        root: opt_str(n.root),
        home: opt_str(n.home),
    }
}

/// `~/x` against home (`/tmp` when unknown), an absolute path as it is,
/// a relative one against the project root.
pub open spec fn resolve_spec(p: Seq<char>, now: NowV) -> Option<Seq<char>> {
    if has_prefix(p, "~/"@) {
        let home = match now.home {
            Some(h) => h,
            None => "/tmp"@,
        };
        Some(join_spec(home, p.skip(2)))
    } else if p.len() > 0 && p[0] == '/' {
        Some(p)
    } else {
        match now.root {
            Some(r) => Some(join_spec(r, p)),
            None => None,
        }
    }
}

fn resolve(p: &[char], now: &Now) -> (r: Option<String>)
    ensures
        match r {
            Some(s) => resolve_spec(p@, now_view(now)) == Some(s@),
            None => resolve_spec(p@, now_view(now)) is None,
        },
{
    let ps = string_of(p);
    if prefixed(p, "~/") {
        proof {
            reveal_strlit("~/");
        }
        let rest = slice(p, 2, p.len());
        let rs = string_of(&rest);
        proof {
            assert(rest@ =~= p@.skip(2));
        }
        let home = match &now.home {
            Some(h) => h.clone(),
            None => "/tmp".to_string(),
        };
        return Some(join(home.as_str(), rs.as_str()));
    }
    if p.len() > 0 && p[0] == '/' {
        return Some(ps);
    }
    match &now.root {
        Some(r) => Some(join(r.as_str(), ps.as_str())),
        None => None,
    }
}

/// The instruction file a source names, resolved, when it names one.
pub open spec fn instruction_path(source: Seq<char>, now: NowV) -> Option<Seq<char>> {
    if kind_spec(source) == Kind::Instructions && has_prefix(source, "Instruction file "@) {
        resolve_spec(source.skip(17), now)
    } else {
        None
    }
}

fn instruction_path_exec(source: &[char], now: &Now) -> (r: Option<String>)
    ensures
        match r {
            Some(s) => instruction_path(source@, now_view(now)) == Some(s@),
            None => instruction_path(source@, now_view(now)) is None,
        },
{
    let kind = kind_of(source);
    if kind == Kind::Instructions && prefixed(source, "Instruction file ") {
        proof {
            reveal_strlit("Instruction file ");
        }
        let p = slice(source, 17, source.len());
        proof {
            assert(p@ =~= source@.skip(17));
        }
        resolve(&p, now)
    } else {
        None
    }
}

/// Whether a file is at `path`. Claims nothing: the answer is the disk's.
#[verifier::external_body]
fn file_exists(path: &str) -> bool {
    std::path::Path::new(path).exists()
}

/// Some configured hook is the command `cmd`.
pub open spec fn configured(cfg: Seq<Seq<char>>, cmd: Seq<char>) -> bool {
    exists|i: int| 0 <= i < cfg.len() && same_command_spec(#[trigger] cfg[i], cmd)
}

/// Live or history, and why it is history, given whether the instruction
/// file it names exists (`present`, read only when it names one). Hooks
/// are checked against today's config, everything else against the
/// harness's newest session.
pub open spec fn status_spec(c: CostV, now: NowV, present: bool) -> (Status, Option<Seq<char>>) {
    if instruction_path(c.source, now) is Some {
        if present {
            (Status::Active, None)
        } else {
            (Status::Gone, Some("the file no longer exists"@))
        }
    } else if hook_command_spec(c.source) is Some && now.hooks is Some && configured(
        now.hooks->0,
        hook_command_spec(c.source)->0,
    ) {
        (Status::Active, None)
    } else {
        match now.newest_costs {
            None => (Status::Unknown, None),
            Some(nc) => {
                let when = match now.newest_started {
                    Some(t) => ", started "@ + short_utc_spec(t as nat),
                    None => seq![],
                };
                let k = cost_at(nc, c.source);
                if k < 0 {
                    (Status::Gone, Some("not in your newest session"@ + when))
                } else if nc[k].items < c.items {
                    (Status::Reduced { now: nc[k].items as usize }, None)
                } else {
                    (Status::Active, None)
                }
            },
        }
    }
}

fn any_configured(cfg: &Vec<String>, cmd: &[char]) -> (r: bool)
    ensures
        r == configured(cfg.deep_view(), cmd@),
{
    let cs = string_of(cmd);
    let mut i: usize = 0;
    while i < cfg.len()
        invariant
            cs@ == cmd@,
            i <= cfg@.len(),
            forall|j: int| 0 <= j < i ==> !same_command_spec(#[trigger] cfg.deep_view()[j], cmd@),
        decreases cfg@.len() - i,
    {
        if same_command(cfg[i].as_str(), cs.as_str()) {
            proof {
                assert(cfg.deep_view()[i as int] == cfg@[i as int]@);
            }
            return true;
        }
        proof {
            assert(cfg.deep_view()[i as int] == cfg@[i as int]@);
        }
        i += 1;
    }
    false
}

fn status_of(c: &Cost, now: &Now, present: bool) -> (r: (Status, Option<Vec<char>>))
    ensures
        r.0 == status_spec(c.view(), now_view(now), present).0,
        match r.1 {
            Some(w) => status_spec(c.view(), now_view(now), present).1 == Some(w@),
            None => status_spec(c.view(), now_view(now), present).1 is None,
        },
{
    let src = chars_of(c.source.as_str());
    if instruction_path_exec(&src, now).is_some() {
        return if present {
            (Status::Active, None)
        } else {
            (Status::Gone, Some(chars_of("the file no longer exists")))
        };
    }
    match (hook_command(&src), &now.hooks) {
        (Some(cmd), Some(cfg)) => {
            if any_configured(cfg, &cmd) {
                return (Status::Active, None);
            }
        },
        _ => {},
    }
    match &now.newest {
        None => (Status::Unknown, None),
        Some(n) => {
            let mut when: Vec<char> = Vec::new();
            match now.newest_started {
                Some(t) => {
                    push_text(&mut when, ", started ");
                    let s = short_utc(t);
                    push_text(&mut when, s.as_str());
                },
                None => {},
            }
            match super::find_cost(&n.costs, c.source.as_str()) {
                None => {
                    let mut w = chars_of("not in your newest session");
                    push_all(&mut w, &when);
                    (Status::Gone, Some(w))
                },
                Some(k) => {
                    if n.costs[k].items < c.items {
                        (Status::Reduced { now: n.costs[k].items }, None)
                    } else {
                        (Status::Active, None)
                    }
                },
            }
        },
    }
}

// ---------------------------------------------------------------------------
// Headlines
// ---------------------------------------------------------------------------

/// `" (now N)"` for a reduced source.
pub open spec fn now_note(status: Status) -> Seq<char> {
    match status {
        Status::Reduced { now } => " (now "@ + dec(now as nat) + ")"@,
        _ => seq![],
    }
}

/// What the report tells a headline: skills listed, skills used, and
/// whether the harness records use.
pub open spec fn headline_spec(
    c: CostV,
    kind: Kind,
    status: Status,
    listed: nat,
    used: nat,
    recorded: bool,
) -> Seq<char> {
    let n = now_note(status);
    match kind {
        Kind::Skills => {
            let u = if recorded {
                dec(used) + " used"@
            } else {
                "use not recorded by this harness"@
            };
            dec(if listed >= c.items { listed } else { c.items }) + " skills listed on every call"@ + n
                + ", "@ + u
        },
        Kind::Instructions => {
            let per = if c.items >= 1 {
                c.tokens / c.items
            } else {
                c.tokens
            };
            let subject = match subject_spec(c.source, kind) {
                Some(s) => s,
                None => seq![],
            };
            subject + " · "@ + human_tokens_spec(per) + " tokens on every call"@
        },
        Kind::Mcp => dec(c.items) + " MCP servers add instructions to every call"@ + n,
        Kind::ToolNames => dec(c.items) + " tool names listed on every call"@ + n,
        Kind::Agents => dec(c.items) + " agent types listed on every call"@ + n,
        Kind::HookOutput => match hook_command_spec(c.source) {
            Some(cmd) => "Hook `"@ + ends_spec(cmd) + "` writes into the context"@,
            None => c.source,
        },
        _ => c.source,
    }
}

fn push_now_note(v: &mut Vec<char>, status: Status)
    ensures
        final(v)@ == old(v)@ + now_note(status),
{
    match status {
        Status::Reduced { now } => {
            push_text(v, " (now ");
            push_dec(v, now as u64);
            push_text(v, ")");
        },
        _ => {},
    }
}

fn headline(c: &Cost, kind: Kind, status: Status, listed: usize, used: usize, recorded: bool) -> (r: Vec<char>)
    ensures
        r@ == headline_spec(c.view(), kind, status, listed as nat, used as nat, recorded),
{
    let src = chars_of(c.source.as_str());
    let mut v: Vec<char> = Vec::new();
    match kind {
        Kind::Skills => {
            push_dec(&mut v, if listed >= c.items { listed as u64 } else { c.items as u64 });
            push_text(&mut v, " skills listed on every call");
            push_now_note(&mut v, status);
            push_text(&mut v, ", ");
            if recorded {
                push_dec(&mut v, used as u64);
                push_text(&mut v, " used");
            } else {
                push_text(&mut v, "use not recorded by this harness");
            }
        },
        Kind::Instructions => {
            let per = if c.items >= 1 {
                c.tokens / c.items
            } else {
                c.tokens
            };
            match subject_of(&src, kind) {
                Some(s) => push_all(&mut v, &s),
                None => {},
            }
            push_text(&mut v, " · ");
            let h = human_tokens(per);
            push_all(&mut v, &h);
            push_text(&mut v, " tokens on every call");
        },
        Kind::Mcp => {
            push_dec(&mut v, c.items as u64);
            push_text(&mut v, " MCP servers add instructions to every call");
            push_now_note(&mut v, status);
        },
        Kind::ToolNames => {
            push_dec(&mut v, c.items as u64);
            push_text(&mut v, " tool names listed on every call");
            push_now_note(&mut v, status);
        },
        Kind::Agents => {
            push_dec(&mut v, c.items as u64);
            push_text(&mut v, " agent types listed on every call");
            push_now_note(&mut v, status);
        },
        Kind::HookOutput => {
            match hook_command(&src) {
                Some(cmd) => {
                    push_text(&mut v, "Hook `");
                    let cs = string_of(&cmd);
                    let e = ends(cs.as_str());
                    push_text(&mut v, e.as_str());
                    push_text(&mut v, "` writes into the context");
                },
                None => {
                    v = src;
                },
            }
        },
        _ => {
            v = src;
        },
    }
    v
}


// ---------------------------------------------------------------------------
// Failing hooks
// ---------------------------------------------------------------------------

pub type Group = (Seq<char>, Seq<HookErrorV>);

/// Index of the first group with message `m`, or -1.
pub open spec fn group_at(gs: Seq<Group>, m: Seq<char>) -> int {
    if exists|k: int| 0 <= k < gs.len() && gs[k].0 == m {
        choose|k: int| 0 <= k < gs.len() && gs[k].0 == m && forall|j: int| 0 <= j < k ==> gs[j].0 != m
    } else {
        -1
    }
}

pub open spec fn add_to_groups(gs: Seq<Group>, h: HookErrorV) -> Seq<Group> {
    let k = group_at(gs, h.message);
    if k >= 0 {
        gs.update(k, (gs[k].0, gs[k].1.push(h)))
    } else {
        gs.push((h.message, seq![h]))
    }
}

/// Hook errors grouped by their message, groups in the order their first
/// error came.
pub open spec fn groups_of(hs: Seq<HookErrorV>) -> Seq<Group>
    decreases hs.len(),
{
    if hs.len() == 0 {
        seq![]
    } else {
        add_to_groups(groups_of(hs.drop_last()), hs.last())
    }
}

pub open spec fn count_f() -> spec_fn(HookErrorV) -> nat {
    |h: HookErrorV| h.count
}

pub open spec fn group_count_f() -> spec_fn(Group) -> nat {
    |g: Group| total(g.1, count_f())
}

pub open spec fn opt_max(a: Option<u64>, b: Option<u64>) -> Option<u64> {
    match (a, b) {
        (Some(x), Some(y)) => Some(if x >= y { x } else { y }),
        (Some(x), None) => Some(x),
        (None, y) => y,
    }
}

/// The newest time any of `hs` was seen.
pub open spec fn latest(hs: Seq<HookErrorV>) -> Option<u64>
    decreases hs.len(),
{
    if hs.len() == 0 {
        None
    } else {
        opt_max(latest(hs.drop_last()), hs.last().last_seen)
    }
}

pub open spec fn status_prefix() -> Seq<char> {
    "Failed with non-blocking status code: "@
}

pub open spec fn group_status(hs: Seq<HookErrorV>, now: NowV) -> Status {
    match now.hooks {
        Some(cfg) => if exists|i: int| 0 <= i < hs.len() && cfg.contains(#[trigger] hs[i].command) {
            Status::Active
        } else {
            Status::Gone
        },
        None => Status::Unknown,
    }
}

/// The finding for hooks that failed with one message.
pub open spec fn group_finding(m: Seq<char>, hs: Seq<HookErrorV>, now: NowV) -> FindingV {
    let status = group_status(hs, now);
    let who = if hs.len() == 1 {
        "Hook"@
    } else {
        dec(hs.len()) + " hooks"@
    };
    FindingV {
        severity: Severity::Broken,
        kind: Kind::FailingHooks,
        status,
        headline: who + " failed "@ + dec(total(hs, count_f())) + "× · "@ + truncate_spec(
            strip_all(m, status_prefix()),
            60,
        ),
        subject: Some(ends_spec(hs[0].command)),
        fix: if status == Status::Gone {
            "Already removed: gone from your hook config"@
        } else {
            "Fix or remove it: it runs, and fails, on every matching event"@
        },
        steps: seq![],
        resent: 0,
        last_seen: match latest(hs) {
            Some(t) => Some(short_utc_spec(t as nat)),
            None => None,
        },
    }
}

pub open spec fn failing_spec(hs: Seq<HookErrorV>, now: NowV) -> Seq<FindingV> {
    groups_of(hs).map_values(|g: Group| group_finding(g.0, g.1, now))
}

pub open spec fn members_view(idx: Seq<usize>, hs: Seq<HookErrorV>) -> Seq<HookErrorV> {
    idx.map_values(|i: usize| hs[i as int])
}

pub open spec fn groups_view(msgs: Seq<Seq<char>>, members: Seq<Seq<usize>>, hs: Seq<HookErrorV>) -> Seq<Group> {
    Seq::new(msgs.len(), |k: int| (msgs[k], members_view(members[k], hs)))
}

fn failing_hooks(errors: &Vec<HookError>, now: &Now) -> (r: Vec<Finding>)
    requires
        total(hooks_view(errors@), count_f()) <= usize::MAX,
    ensures
        findings_view(r@) == failing_spec(hooks_view(errors@), now_view(now)),
{
    let ghost hs = hooks_view(errors@);
    let mut msgs: Vec<Vec<char>> = Vec::new();
    let mut members: Vec<Vec<usize>> = Vec::new();
    let mut i: usize = 0;
    proof {
        assert(hs.take(0) =~= Seq::<HookErrorV>::empty());
        assert(groups_view(msgs.deep_view(), members.deep_view(), hs) =~= groups_of(hs.take(0)));
    }
    while i < errors.len()
        invariant
            hs == hooks_view(errors@),
            i <= errors@.len(),
            msgs@.len() == members@.len(),
            forall|k: int| 0 <= k < members@.len() ==> #[trigger] members@[k]@.len() > 0,
            forall|k: int, j: int|
                0 <= k < members@.len() && 0 <= j < members@[k]@.len() ==> #[trigger] members@[k]@[j] < i,
            groups_view(msgs.deep_view(), members.deep_view(), hs) == groups_of(hs.take(i as int)),
            total(groups_of(hs.take(i as int)), group_count_f()) == total(hs.take(i as int), count_f()),
        decreases errors@.len() - i,
    {
        let ghost gs = groups_of(hs.take(i as int));
        let h = &errors[i];
        let m = chars_of(h.message.as_str());
        proof {
            assert(hs.take(i + 1).drop_last() =~= hs.take(i as int));
            assert(hs.take(i + 1).last() == hs[i as int]);
            assert(hs[i as int] == h.view());
            lemma_total_prefix(hs, count_f(), i as int);
        }
        let mut k: usize = 0;
        while k < msgs.len() && !chars_eq(&msgs[k], &m)
            invariant
                k <= msgs@.len(),
                msgs@.len() == members@.len(),
                gs == groups_view(msgs.deep_view(), members.deep_view(), hs),
                forall|j: int| 0 <= j < k ==> #[trigger] gs[j].0 != m@,
            decreases msgs@.len() - k,
        {
            proof {
                assert(gs[k as int].0 == msgs@[k as int]@);
            }
            k += 1;
        }
        if k < msgs.len() {
            proof {
                assert(gs[k as int].0 == msgs@[k as int]@);
                let g = group_at(gs, m@);
                if g != k {
                    if g < k {
                        assert(gs[g].0 != m@);
                    } else {
                        assert(gs[k as int].0 != m@);
                    }
                }
            }
            let ghost before = members.deep_view();
            members[k].push(i);
            proof {
                let ng = (gs[k as int].0, gs[k as int].1.push(h.view()));
                assert(members.deep_view()[k as int] =~= before[k as int].push(i));
                assert forall|j: int| 0 <= j < members@.len() && j != k implies #[trigger] members.deep_view()[j] == before[j] by {}
                assert(members_view(members.deep_view()[k as int], hs) =~= gs[k as int].1.push(hs[i as int]));
                assert(groups_view(msgs.deep_view(), members.deep_view(), hs) =~= gs.update(k as int, ng));
                lemma_total_update(gs, group_count_f(), k as int, ng);
                lemma_total_push(gs[k as int].1, count_f(), h.view());
            }
        } else {
            proof {
                assert(group_at(gs, m@) == -1);
            }
            let ghost bm = msgs.deep_view();
            let ghost bmem = members.deep_view();
            let mut one: Vec<usize> = Vec::new();
            one.push(i);
            proof {
                assert(m.deep_view() =~= m@);
                assert(one.deep_view() =~= seq![i]);
            }
            msgs.push(m);
            members.push(one);
            proof {
                assert(msgs.deep_view() =~= bm.push(m@));
                assert(members.deep_view() =~= bmem.push(seq![i]));
                let ng = (h.view().message, seq![h.view()]);
                assert(members_view(members.deep_view()[k as int], hs) =~= seq![hs[i as int]]);
                assert(groups_view(msgs.deep_view(), members.deep_view(), hs) =~= gs.push(ng));
                lemma_total_push(gs, group_count_f(), ng);
                lemma_total_push(Seq::<HookErrorV>::empty(), count_f(), h.view());
                assert(seq![h.view()] =~= Seq::<HookErrorV>::empty().push(h.view()));
            }
        }
        i += 1;
    }
    proof {
        assert(hs.take(errors@.len() as int) =~= hs);
    }
    let ghost gs = groups_of(hs);
    let mut out: Vec<Finding> = Vec::new();
    let mut g: usize = 0;
    while g < msgs.len()
        invariant
            hs == hooks_view(errors@),
            msgs@.len() == members@.len(),
            forall|k: int| 0 <= k < members@.len() ==> #[trigger] members@[k]@.len() > 0,
            forall|k: int, j: int|
                0 <= k < members@.len() && 0 <= j < members@[k]@.len() ==> #[trigger] members@[k]@[j] < errors@.len(),
            gs == groups_view(msgs.deep_view(), members.deep_view(), hs),
            total(gs, group_count_f()) <= usize::MAX,
            g <= msgs@.len(),
            findings_view(out@) == gs.take(g as int).map_values(|x: Group| group_finding(x.0, x.1, now_view(now))),
        decreases msgs@.len() - g,
    {
        proof {
            lemma_total_bound(gs, group_count_f(), g as int);
            assert(gs[g as int] == (msgs@[g as int]@, members_view(members@[g as int]@, hs)));
        }
        let f = group_finding_exec(errors, &msgs[g], &members[g], now);
        let ghost before = out@;
        out.push(f);
        proof {
            assert(findings_view(out@) =~= findings_view(before).push(f.view()));
            assert(gs.take(g + 1) =~= gs.take(g as int).push(gs[g as int]));
            assert(findings_view(out@) =~= gs.take(g + 1).map_values(|x: Group| group_finding(x.0, x.1, now_view(now))));
        }
        g += 1;
    }
    proof {
        assert(gs.take(msgs@.len() as int) =~= gs);
    }
    out
}

fn group_finding_exec(errors: &Vec<HookError>, m: &Vec<char>, idx: &Vec<usize>, now: &Now) -> (f: Finding)
    requires
        idx@.len() > 0,
        forall|j: int| 0 <= j < idx@.len() ==> #[trigger] idx@[j] < errors@.len(),
        total(members_view(idx@, hooks_view(errors@)), count_f()) <= usize::MAX,
    ensures
        f.view() == group_finding(m@, members_view(idx@, hooks_view(errors@)), now_view(now)),
{
    let ghost hs = members_view(idx@, hooks_view(errors@));
    let mut count: usize = 0;
    let mut last: Option<u64> = None;
    let mut live = false;
    let mut j: usize = 0;
    while j < idx.len()
        invariant
            hs == members_view(idx@, hooks_view(errors@)),
            forall|t: int| 0 <= t < idx@.len() ==> #[trigger] idx@[t] < errors@.len(),
            total(hs, count_f()) <= usize::MAX,
            j <= idx@.len(),
            count == total(hs.take(j as int), count_f()),
            last == latest(hs.take(j as int)),
            live == match now_view(now).hooks {
                Some(cfg) => exists|t: int| 0 <= t < j && cfg.contains(#[trigger] hs[t].command),
                None => false,
            },
        decreases idx@.len() - j,
    {
        let h = &errors[idx[j]];
        proof {
            assert(hs[j as int] == h.view());
            lemma_total_prefix(hs, count_f(), j as int);
            lemma_total_prefix_le(hs, count_f(), j + 1);
            assert(hs.take(j + 1).drop_last() =~= hs.take(j as int));
        }
        count = count + h.count;
        last = match (last, h.last_seen) {
            (Some(x), Some(y)) => Some(if x >= y { x } else { y }),
            (Some(x), None) => Some(x),
            (None, y) => y,
        };
        match &now.hooks {
            Some(cfg) => {
                if !live && crate::strset::has_str(cfg, h.command.as_str()) {
                    live = true;
                }
                proof {
                    if live {
                        if !(exists|t: int| 0 <= t < j && cfg.deep_view().contains(#[trigger] hs[t].command)) {
                            assert(cfg.deep_view().contains(hs[j as int].command));
                        }
                    }
                }
            },
            None => {},
        }
        j += 1;
    }
    proof {
        assert(hs.take(idx@.len() as int) =~= hs);
    }
    let status = match &now.hooks {
        Some(_) => if live {
            Status::Active
        } else {
            Status::Gone
        },
        None => Status::Unknown,
    };
    let mut headline: Vec<char> = Vec::new();
    if idx.len() == 1 {
        push_text(&mut headline, "Hook");
    } else {
        push_dec(&mut headline, idx.len() as u64);
        push_text(&mut headline, " hooks");
    }
    push_text(&mut headline, " failed ");
    push_dec(&mut headline, count as u64);
    push_text(&mut headline, "× · ");
    let pfx = chars_of("Failed with non-blocking status code: ");
    let why = strip_all_exec(m, &pfx);
    let cut = truncate_chars(&why, 60);
    push_all(&mut headline, &cut);
    let fix = if status == Status::Gone {
        "Already removed: gone from your hook config".to_string()
    } else {
        "Fix or remove it: it runs, and fails, on every matching event".to_string()
    };
    let first = &errors[idx[0]];
    let subject = ends(first.command.as_str());
    let last_seen = match last {
        Some(t) => Some(short_utc(t)),
        None => None,
    };
    let f = Finding {
        severity: Severity::Broken,
        kind: Kind::FailingHooks,
        status,
        headline: string_of(&headline),
        subject: Some(subject),
        fix,
        steps: Vec::new(),
        resent: 0,
        last_seen,
    };
    proof {
        assert(hs[0] == first.view());
        assert(f.steps.deep_view() =~= Seq::<Seq<char>>::empty());
        assert(f.view() =~= group_finding(m@, hs, now_view(now)));
    }
    f
}


// ---------------------------------------------------------------------------
// All findings, ranked
// ---------------------------------------------------------------------------

pub open spec fn seen_view(v: Seq<(String, u64)>) -> Seq<(Seq<char>, u64)> {
    v.map_values(|p: (String, u64)| (p.0@, p.1))
}

/// The time recorded for `key`: its first entry.
pub open spec fn seen_at(seen: Seq<(Seq<char>, u64)>, key: Seq<char>) -> Option<u64> {
    if exists|k: int| 0 <= k < seen.len() && seen[k].0 == key {
        let k = choose|k: int|
            0 <= k < seen.len() && seen[k].0 == key && forall|j: int| 0 <= j < k ==> seen[j].0 != key;
        Some(seen[k].1)
    } else {
        None
    }
}

/// A config source worth a finding: at least half a percent of all
/// context sent.
pub open spec fn qualifies(c: CostV, ctx: nat) -> bool {
    c.origin == Origin::Config && ctx > 0 && c.resent * 200 >= ctx
}

/// What the report tells the findings besides its costs and hook errors.
#[verifier::ext_equal]
pub struct Context {
    pub context_sent: nat,
    pub skills_listed: nat,
    pub skills_used: nat,
    pub skills_recorded: bool,
}

pub open spec fn cost_finding(c: CostV, cx: Context, seen: Seq<(Seq<char>, u64)>, now: NowV, present: bool) -> FindingV {
    let kind = kind_spec(c.source);
    let st = status_spec(c, now, present);
    FindingV {
        severity: Severity::Waste,
        kind,
        status: st.0,
        headline: headline_spec(c, kind, st.0, cx.skills_listed, cx.skills_used, cx.skills_recorded),
        subject: subject_spec(c.source, kind),
        fix: match st.1 {
            Some(w) => "Already removed: "@ + w,
            None => fix_for_spec(kind, c.source),
        },
        steps: seq![],
        resent: c.resent,
        last_seen: match seen_at(seen, c.source) {
            Some(t) => Some(short_utc_spec(t as nat)),
            None => None,
        },
    }
}

/// Findings for the config sources worth one, in the order of `costs`.
pub open spec fn cost_findings(
    costs: Seq<CostV>,
    cx: Context,
    seen: Seq<(Seq<char>, u64)>,
    now: NowV,
    present: Seq<bool>,
) -> Seq<FindingV>
    decreases costs.len(),
{
    if costs.len() == 0 {
        seq![]
    } else {
        let rest = cost_findings(costs.drop_last(), cx, seen, now, present);
        if qualifies(costs.last(), cx.context_sent) {
            rest.push(cost_finding(costs.last(), cx, seen, now, present[costs.len() - 1]))
        } else {
            rest
        }
    }
}

/// Live before history, broken before waste, then the biggest first.
pub open spec fn finding_key(f: FindingV) -> u128 {
    ((if f.status == Status::Gone {
        1int
    } else {
        0
    }) * 0x2_0000_0000_0000_0000 + (if f.severity == Severity::Waste {
        1int
    } else {
        0
    }) * 0x1_0000_0000_0000_0000 + (usize::MAX - f.resent)) as u128
}

pub open spec fn keys_of(fs: Seq<FindingV>) -> Seq<u128> {
    fs.map_values(|f: FindingV| finding_key(f))
}

/// `out` is `unsorted` ordered stably by `finding_key`.
pub open spec fn ranked(unsorted: Seq<FindingV>, out: Seq<FindingV>) -> bool {
    exists|ord: Seq<usize>|
        #[trigger] num_order(ord, keys_of(unsorted), false) && out == ord.map_values(
            |i: usize| unsorted[i as int],
        )
}

pub open spec fn report_context(r: &super::Report) -> Context {
    Context {
        context_sent: r.context_sent as nat,
        skills_listed: r.skills_listed as nat,
        skills_used: r.skills_used@.len(),
        skills_recorded: r.skills_tracked,
    }
}

/// Every finding of `r`, before ranking, given for each cost whether the
/// instruction file it names exists.
pub open spec fn unranked(r: &super::Report, seen: Seq<(Seq<char>, u64)>, now: NowV, present: Seq<bool>) -> Seq<FindingV> {
    failing_spec(hooks_view(r.hook_errors@), now) + cost_findings(
        costs_view(r.costs@),
        report_context(r),
        seen,
        now,
        present,
    )
}

impl Finding {
    pub fn copy(&self) -> (f: Finding)
        ensures
            f.view() == self.view(),
    {
        Finding {
            severity: self.severity,
            kind: self.kind,
            status: self.status,
            headline: self.headline.clone(),
            subject: match &self.subject {
                Some(s) => Some(s.clone()),
                None => None,
            },
            fix: self.fix.clone(),
            steps: crate::strset::copy_strs(&self.steps),
            resent: self.resent,
            last_seen: match &self.last_seen {
                Some(s) => Some(s.clone()),
                None => None,
            },
        }
    }
}

fn seen_lookup(seen: &Vec<(String, u64)>, key: &str) -> (r: Option<u64>)
    ensures
        r == seen_at(seen_view(seen@), key@),
{
    let ghost sv = seen_view(seen@);
    let mut i: usize = 0;
    while i < seen.len()
        invariant
            sv == seen_view(seen@),
            i <= seen@.len(),
            forall|j: int| 0 <= j < i ==> sv[j].0 != key@,
        decreases seen@.len() - i,
    {
        if str_eq(seen[i].0.as_str(), key) {
            proof {
                assert(sv[i as int].0 == key@);
                let k = choose|k: int|
                    0 <= k < sv.len() && sv[k].0 == key@ && forall|j: int| 0 <= j < k ==> sv[j].0 != key@;
                if k != i {
                    if k < i {
                        assert(sv[k].0 != key@);
                    } else {
                        assert(sv[i as int].0 != key@);
                    }
                }
            }
            return Some(seen[i].1);
        }
        i += 1;
    }
    None
}

fn cost_finding_exec(c: &Cost, r: &super::Report, seen: &Vec<(String, u64)>, now: &Now, present: bool) -> (f: Finding)
    ensures
        f.view() == cost_finding(c.view(), report_context(r), seen_view(seen@), now_view(now), present),
{
    let src = chars_of(c.source.as_str());
    let kind = kind_of(&src);
    let st = status_of(c, now, present);
    let status = st.0;
    let head = headline(c, kind, status, r.skills_listed, r.skills_used.len(), r.skills_tracked);
    let subject = match subject_of(&src, kind) {
        Some(x) => Some(string_of(&x)),
        None => None,
    };
    let fix = match st.1 {
        Some(w) => {
            let mut v = chars_of("Already removed: ");
            push_all(&mut v, &w);
            string_of(&v)
        },
        None => {
            let v = fix_for(kind, &src);
            string_of(&v)
        },
    };
    let last_seen = match seen_lookup(seen, c.source.as_str()) {
        Some(t) => Some(short_utc(t)),
        None => None,
    };
    let f = Finding {
        severity: Severity::Waste,
        kind,
        status,
        headline: string_of(&head),
        subject,
        fix,
        steps: Vec::new(),
        resent: c.resent,
        last_seen,
    };
    proof {
        assert(f.steps.deep_view() =~= Seq::<Seq<char>>::empty());
        assert(f.view() =~= cost_finding(c.view(), report_context(r), seen_view(seen@), now_view(now), present));
    }
    f
}

fn key_of(f: &Finding) -> (k: u128)
    ensures
        k == finding_key(f.view()),
{
    let hist: u128 = if f.is_history() {
        1
    } else {
        0
    };
    let waste: u128 = match f.severity {
        Severity::Waste => 1,
        Severity::Broken => 0,
    };
    let rest: u128 = (usize::MAX - f.resent) as u128;
    hist * 0x2_0000_0000_0000_0000 + waste * 0x1_0000_0000_0000_0000 + rest
}

/// The findings of `r`, given for each cost whether the instruction file
/// it names exists (read only for costs that name one).
#[verifier::rlimit(60)]
#[verifier::spinoff_prover]
pub fn findings_with(r: &super::Report, seen: &Vec<(String, u64)>, now: &Now, present: &Vec<bool>) -> (out: Vec<Finding>)
    requires
        present@.len() == r.costs@.len(),
        total(hooks_view(r.hook_errors@), count_f()) <= usize::MAX,
    ensures
        ranked(unranked(r, seen_view(seen@), now_view(now), present@), findings_view(out@)),
{
    let mut all = failing_hooks(&r.hook_errors, now);
    let ghost fail = findings_view(all@);
    let ghost cs = costs_view(r.costs@);
    let ghost cx = report_context(r);
    let ghost sv = seen_view(seen@);
    let ghost nv = now_view(now);
    let mut i: usize = 0;
    while i < r.costs.len()
        invariant
            cs == costs_view(r.costs@),
            cx == report_context(r),
            sv == seen_view(seen@),
            nv == now_view(now),
            present@.len() == r.costs@.len(),
            i <= cs.len(),
            findings_view(all@) == fail + cost_findings(cs.take(i as int), cx, sv, nv, present@),
        decreases cs.len() - i,
    {
        let c = &r.costs[i];
        proof {
            assert(cs.take(i + 1).drop_last() =~= cs.take(i as int));
            assert(cs.take(i + 1).last() == c.view());
            assert(cs.take(i + 1).len() - 1 == i);
        }
        let ctx = r.context_sent;
        if c.origin == Origin::Config && ctx > 0 && (c.resent as u128) * 200 >= ctx as u128 {
            let f = cost_finding_exec(c, r, seen, now, present[i]);
            let ghost before = all@;
            all.push(f);
            proof {
                assert(findings_view(all@) =~= findings_view(before).push(f.view()));
            }
        }
        i += 1;
    }
    proof {
        assert(cs.take(cs.len() as int) =~= cs);
    }
    let ghost un = findings_view(all@);
    let mut keys: Vec<u128> = Vec::new();
    let mut j: usize = 0;
    while j < all.len()
        invariant
            un == findings_view(all@),
            j <= all@.len(),
            keys@ =~= un.take(j as int).map_values(|f: FindingV| finding_key(f)),
        decreases all@.len() - j,
    {
        let k = key_of(&all[j]);
        keys.push(k);
        proof {
            assert(un.take(j + 1).map_values(|f: FindingV| finding_key(f)) =~= un.take(j as int).map_values(
                |f: FindingV| finding_key(f),
            ).push(finding_key(un[j as int])));
        }
        j += 1;
    }
    proof {
        assert(un.take(un.len() as int) =~= un);
    }
    let ord = order_by_num(&keys, false);
    let mut out: Vec<Finding> = Vec::new();
    let mut m: usize = 0;
    while m < ord.len()
        invariant
            un == findings_view(all@),
            crate::order::is_order(ord@, all@.len()),
            m <= ord@.len(),
            findings_view(out@) =~= ord@.take(m as int).map_values(|i: usize| un[i as int]),
        decreases ord@.len() - m,
    {
        let f = all[ord[m]].copy();
        let ghost before = out@;
        out.push(f);
        proof {
            assert(findings_view(out@) =~= findings_view(before).push(f.view()));
            assert(ord@.take(m + 1) =~= ord@.take(m as int).push(ord@[m as int]));
        }
        m += 1;
    }
    proof {
        assert(ord@.take(ord@.len() as int) =~= ord@);
        assert(un == unranked(r, sv, nv, present@));
        assert(keys@ =~= keys_of(un));
        assert(num_order(ord@, keys_of(un), false));
    }
    out
}

/// The findings of `r`: failing hooks and config sources worth acting on,
/// each live or history, live ones first, broken before waste, biggest
/// first. Instruction files are looked up on disk; whatever the disk
/// says, the result is `findings_with` given those answers.
pub fn findings(r: &super::Report, seen: &Vec<(String, u64)>, now: &Now) -> (out: Vec<Finding>)
    requires
        total(hooks_view(r.hook_errors@), count_f()) <= usize::MAX,
    ensures
        exists|present: Seq<bool>|
            present.len() == r.costs@.len() && ranked(
                unranked(r, seen_view(seen@), now_view(now), present),
                findings_view(out@),
            ),
{
    let mut present: Vec<bool> = Vec::new();
    let mut i: usize = 0;
    while i < r.costs.len()
        invariant
            i <= r.costs@.len(),
            present@.len() == i,
        decreases r.costs@.len() - i,
    {
        let src = chars_of(r.costs[i].source.as_str());
        let here = match instruction_path_exec(&src, now) {
            Some(p) => file_exists(p.as_str()),
            None => false,
        };
        present.push(here);
        i += 1;
    }
    findings_with(r, seen, now, &present)
}

} // verus!
