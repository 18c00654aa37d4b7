//! The handoff as markdown, from values only: no disk, no clock, no git.

use vstd::prelude::*;

use super::summary::Summary;
use super::Tail;
use crate::fmt::{cut_lines, cut_lines_spec, dec, push_all, push_dec, push_text, truncate_chars, truncate_spec};
use crate::frontmatter::{quote_chars, quote_spec};
use crate::seqs::{lemma_cat3, lemma_cat5};
use crate::limits::{
    HANDOFF_DECISION_CHARS, HANDOFF_DIRTY, HANDOFF_EARLIER_REPLIES, HANDOFF_EARLIER_REPLY_CHARS,
    HANDOFF_FILES, HANDOFF_LAST_REPLY_CHARS, HANDOFF_PLAN_CHARS, HANDOFF_PROMPT_CHARS,
    HANDOFF_STOPPED_CHARS,
};
use crate::text::{
    byte_prefix, byte_prefix_exec, chars_of, copy_chars, cuts_at, find_spec, has_suffix, join, join_spec,
    lines, lines_of, locate, occurs_at, occurs_at_exec, slice, split_whitespace, string_of, trim, trim_end,
    trim_end_spec, trim_spec, words_of,
};

verus! {

/// The repository as git sees it.
pub struct GitState {
    pub branch: String,
    pub sha: String,
    pub dirty: Vec<String>,
    pub user: Option<String>,
}

pub struct Header<'a> {
    pub session: &'a str,
    pub reason: &'a str,
    pub ended: &'a str,
}

// ---------------------------------------------------------------------------
// Sections
// ---------------------------------------------------------------------------

/// `- item` lines.
pub open spec fn bullets(items: Seq<Seq<char>>) -> Seq<char>
    decreases items.len(),
{
    if items.len() == 0 {
        seq![]
    } else {
        bullets(items.drop_last()) + "- "@ + items.last() + "\n"@
    }
}

/// A titled list; nothing at all when the list is empty.
pub open spec fn section_spec(title: Seq<char>, items: Seq<Seq<char>>) -> Seq<char> {
    if items.len() == 0 {
        seq![]
    } else {
        "## "@ + title + "\n"@ + bullets(items) + "\n"@
    }
}

fn push_section(b: &mut Vec<char>, title: &str, items: &Vec<Vec<char>>)
    ensures
        final(b)@ == old(b)@ + section_spec(title@, items.deep_view()),
{
    if items.len() == 0 {
        proof {
            assert(old(b)@ + section_spec(title@, items.deep_view()) =~= old(b)@);
        }
        return;
    }
    let ghost start = b@;
    push_text(b, "## ");
    push_text(b, title);
    push_text(b, "\n");
    let ghost head = b@;
    let mut i: usize = 0;
    proof {
        assert(items.deep_view().take(0) =~= Seq::<Seq<char>>::empty());
        assert(b@ =~= head + bullets(items.deep_view().take(0)));
    }
    while i < items.len()
        invariant
            i <= items@.len(),
            b@ == head + bullets(items.deep_view().take(i as int)),
        decreases items@.len() - i,
    {
        push_text(b, "- ");
        push_all(b, &items[i]);
        push_text(b, "\n");
        proof {
            let t = items.deep_view().take(i + 1);
            assert(t.drop_last() =~= items.deep_view().take(i as int));
            assert(t.last() == items@[i as int]@);
        }
        i += 1;
    }
    push_text(b, "\n");
    proof {
        assert(items.deep_view().take(items@.len() as int) =~= items.deep_view());
        assert(b@ =~= start + section_spec(title@, items.deep_view()));
    }
}

// ---------------------------------------------------------------------------
// Agent text
// ---------------------------------------------------------------------------

/// Number of leading `#`.
pub open spec fn hashes(l: Seq<char>) -> nat
    decreases l.len(),
{
    if l.len() > 0 && l[0] == '#' {
        1 + hashes(l.drop_first())
    } else {
        0
    }
}

proof fn lemma_hashes(l: Seq<char>)
    ensures
        hashes(l) <= l.len(),
        forall|i: int| 0 <= i < hashes(l) ==> l[i] == '#',
        hashes(l) < l.len() ==> l[hashes(l) as int] != '#',
    decreases l.len(),
{
    if l.len() > 0 && l[0] == '#' {
        lemma_hashes(l.drop_first());
        assert forall|i: int| 0 <= i < hashes(l) implies l[i] == '#' by {
            if i > 0 {
                assert(l[i] == l.drop_first()[i - 1]);
            }
        }
    }
}

/// A markdown heading of the agent's becomes a bold line.
pub open spec fn unheading(l: Seq<char>) -> Seq<char> {
    let rest = l.skip(hashes(l) as int);
    if hashes(l) > 0 && rest.len() > 0 && rest[0] == ' ' {
        "**"@ + trim_spec(rest) + "**"@
    } else {
        l
    }
}

fn unheading_exec(l: &[char]) -> (r: Vec<char>)
    ensures
        r@ == unheading(l@),
{
    let mut h: usize = 0;
    while h < l.len() && l[h] == '#'
        invariant
            h <= l.len(),
            forall|i: int| 0 <= i < h ==> l@[i] == '#',
        decreases l.len() - h,
    {
        h += 1;
    }
    proof {
        lemma_hashes(l@);
        lemma_hashes_is(l@, h as int);
    }
    if h > 0 && h < l.len() && l[h] == ' ' {
        let rest = slice(l, h, l.len());
        let t = trim(&rest);
        let mut out = chars_of("**");
        push_all(&mut out, &t);
        push_text(&mut out, "**");
        proof {
            assert(rest@ =~= l@.skip(h as int));
        }
        out
    } else {
        proof {
            if h > 0 && h < l.len() {
                assert(l@.skip(h as int)[0] == l@[h as int]);
            }
        }
        copy_chars(l)
    }
}

proof fn lemma_hashes_is(l: Seq<char>, h: int)
    requires
        0 <= h <= l.len(),
        forall|i: int| 0 <= i < h ==> l[i] == '#',
        h == l.len() || l[h] != '#',
    ensures
        hashes(l) == h,
    decreases h,
{
    if h > 0 {
        lemma_hashes_is(l.drop_first(), h - 1);
    }
}

/// Non-overlapping occurrences of `p` in `s` from `i` on, left to right.
pub open spec fn count_from(s: Seq<char>, p: Seq<char>, i: int) -> nat
    decreases s.len() - i,
{
    if p.len() == 0 || i < 0 || i >= s.len() {
        0
    } else if occurs_at(s, p, i) {
        1 + count_from(s, p, i + p.len())
    } else {
        count_from(s, p, i + 1)
    }
}

fn count_exec(s: &[char], p: &[char]) -> (n: usize)
    requires
        p.len() > 0,
    ensures
        n == count_from(s@, p@, 0),
{
    let mut i: usize = 0;
    let mut n: usize = 0;
    while i < s.len()
        invariant
            p.len() > 0,
            i <= s.len() + p.len(),
            n <= i,
            n + count_from(s@, p@, i as int) == count_from(s@, p@, 0),
        decreases s.len() - i,
    {
        if occurs_at_exec(s, p, i) {
            n += 1;
            i += p.len();
        } else {
            i += 1;
        }
    }
    n
}

pub open spec fn fence() -> Seq<char> {
    "```"@
}

/// Agent text inside the handoff: its headings become bold lines, so they
/// never read as handoff sections, and a cut never leaves a fence open.
pub open spec fn excerpt_spec(text: Seq<char>, max: nat) -> Seq<char> {
    let flat = join_spec(lines_of(trim_spec(text)).map_values(|l: Seq<char>| unheading(l)), seq!['\n']);
    let c = cut_lines_spec(flat, max);
    let o1 = if c.0.len() > 0 && c.0.last() == '\n' {
        c.0
    } else {
        c.0.push('\n')
    };
    let o2 = if count_from(o1, fence(), 0) % 2 == 1 {
        o1 + "```\n"@
    } else {
        o1
    };
    let o3 = if c.1 {
        o2 + "…\n"@
    } else {
        o2
    };
    trim_end_spec(o3)
}

pub fn excerpt(text: &str, max: usize) -> (r: String)
    ensures
        r@ == excerpt_spec(text@, max as nat),
{
    let t = trim(&chars_of(text));
    let ls = lines(&t);
    let mut flat: Vec<Vec<char>> = Vec::new();
    let mut i: usize = 0;
    while i < ls.len()
        invariant
            i <= ls@.len(),
            flat.deep_view() =~= ls.deep_view().take(i as int).map_values(|l: Seq<char>| unheading(l)),
        decreases ls@.len() - i,
    {
        let u = unheading_exec(&ls[i]);
        proof {
            assert(u.deep_view() =~= u@);
        }
        let ghost before = flat.deep_view();
        flat.push(u);
        proof {
            assert(flat.deep_view() =~= before.push(u@));
            assert(ls.deep_view()[i as int] == ls@[i as int]@);
            assert(ls.deep_view().take(i + 1) =~= ls.deep_view().take(i as int).push(ls.deep_view()[i as int]));
        }
        i += 1;
    }
    proof {
        assert(ls.deep_view().take(ls@.len() as int) =~= ls.deep_view());
    }
    let nl = vec!['\n'];
    let joined = join(&flat, &nl);
    proof {
        assert(nl@ =~= seq!['\n']);
    }
    let (mut out, cut) = cut_lines(&joined, max);
    if !(out.len() > 0 && out[out.len() - 1] == '\n') {
        out.push('\n');
    }
    let f = chars_of("```");
    proof {
        reveal_strlit("```");
    }
    if count_exec(&out, &f) % 2 == 1 {
        push_text(&mut out, "```\n");
    }
    if cut {
        push_text(&mut out, "…\n");
    }
    let r = trim_end(&out);
    string_of(&r)
}

/// The opening of a reply, on one line.
pub open spec fn first_paragraph_spec(text: Seq<char>, max: nat) -> Seq<char> {
    let t = trim_spec(text);
    let para = match find_spec(t, "\n\n"@) {
        Some(i) => t.take(i),
        None => t,
    };
    truncate_spec(join_spec(words_of(para), seq![' ']), max)
}

pub fn first_paragraph(text: &str, max: usize) -> (r: String)
    ensures
        r@ == first_paragraph_spec(text@, max as nat),
{
    let t = trim(&chars_of(text));
    let sep = chars_of("\n\n");
    let para = match locate(&t, &sep) {
        Some(i) => {
            let p = slice(&t, 0, i);
            proof {
                assert(p@ =~= t@.take(i as int));
            }
            p
        },
        None => t,
    };
    let w = split_whitespace(&para);
    let sp = vec![' '];
    proof {
        assert(sp@ =~= seq![' ']);
    }
    let j = join(&w, &sp);
    let c = truncate_chars(&j, max);
    string_of(&c)
}

// ---------------------------------------------------------------------------
// The whole handoff
// ---------------------------------------------------------------------------

/// The date part of the end time: its first ten bytes.
pub open spec fn day(ended: Seq<char>) -> Seq<char> {
    byte_prefix(ended, 10)
}

pub open spec fn title_spec(branch: Seq<char>, ended: Seq<char>) -> Seq<char> {
    if branch.len() == 0 {
        "Handoff · "@ + day(ended)
    } else {
        "Handoff · "@ + branch + " · "@ + day(ended)
    }
}

pub open spec fn fm_head(h: Header, s: Summary, git: GitState) -> Seq<char> {
    "---\ntype: Handoff\ntitle: "@ + quote_spec(title_spec(git.branch@, h.ended@)) + "\ntimestamp: "@
        + h.ended@ + "\nsession: "@ + h.session@ + "\nharness: "@ + s.harness@
}

pub open spec fn fm_git(git: GitState) -> Seq<char> {
    "\nbranch: "@ + git.branch@ + "\nsha: "@ + git.sha@ + "\ndirty: "@ + dec(git.dirty@.len())
}

pub open spec fn fm_tail(h: Header, s: Summary, t: Tail) -> Seq<char> {
    "\nstarted: "@ + s.started@ + "\nended: "@ + h.ended@ + "\nreason: "@ + h.reason@ + "\n"@ + (if t.headless {
        "headless: true\n"@
    } else {
        seq![]
    }) + "---\n\n"@
}

/// OKF concept fields first (type, title, timestamp), then relay's own.
pub open spec fn frontmatter_spec(h: Header, s: Summary, t: Tail, git: GitState) -> Seq<char> {
    fm_head(h, s, git) + fm_git(git) + fm_tail(h, s, t)
}

pub open spec fn heading_spec(branch: Seq<char>, ended: Seq<char>) -> Seq<char> {
    "# Handoff · "@ + (if branch.len() == 0 {
        seq![]
    } else {
        branch + " · "@
    }) + day(ended) + "\n\n"@
}

/// The transcript's last reply when there is one; else the truncated
/// reply the `Stop` hook recorded.
pub open spec fn stop_spec(s: Summary, t: Tail) -> Seq<char> {
    if t.replies@.len() > 0 {
        "## Where it stopped\n"@ + excerpt_spec(t.replies@.last()@, HANDOFF_STOPPED_CHARS as nat) + "\n\n"@
    } else {
        match s.last_reply {
            Some(l) => "## Last reply\n"@ + truncate_spec(l@, HANDOFF_LAST_REPLY_CHARS as nat) + "\n\n"@,
            None => seq![],
        }
    }
}

pub open spec fn sat_sub(a: int, b: int) -> int {
    if a > b {
        a - b
    } else {
        0
    }
}

/// The replies before the last, at most three of the latest.
pub open spec fn earlier_replies(replies: Seq<Seq<char>>) -> Seq<Seq<char>> {
    let earlier = sat_sub(replies.len() as int, 1);
    replies.subrange(sat_sub(earlier, HANDOFF_EARLIER_REPLIES as int), earlier)
}

pub open spec fn conversation_spec(s: Summary, t: Tail) -> Seq<char> {
    let ps = s.prompts.deep_view();
    section_spec(
        "Decisions"@,
        t.decisions.deep_view().map_values(|d: Seq<char>| truncate_spec(d, HANDOFF_DECISION_CHARS as nat)),
    ) + section_spec(
        "Asked"@,
        ps.skip(sat_sub(ps.len() as int, 6)).map_values(
            |p: Seq<char>| truncate_spec(p, HANDOFF_PROMPT_CHARS as nat),
        ),
    ) + section_spec(
        "Earlier replies"@,
        earlier_replies(t.replies.deep_view()).map_values(
            |r: Seq<char>| first_paragraph_spec(r, HANDOFF_EARLIER_REPLY_CHARS as nat),
        ),
    ) + match t.plan {
        Some(p) => "## Plan\n"@ + excerpt_spec(p@, HANDOFF_PLAN_CHARS as nat) + "\n\n"@,
        None => seq![],
    }
}

pub open spec fn file_label(f: Seq<char>, n: nat) -> Seq<char> {
    if n > 1 {
        f + " (×"@ + dec(n) + ")"@
    } else {
        f
    }
}

pub open spec fn files_view(v: Seq<(String, usize)>) -> Seq<(Seq<char>, nat)> {
    v.map_values(|p: (String, usize)| (p.0@, p.1 as nat))
}

pub open spec fn work_spec(s: Summary) -> Seq<char> {
    let fs = files_view(s.files@);
    let shown = if fs.len() <= HANDOFF_FILES {
        fs
    } else {
        fs.take(HANDOFF_FILES as int)
    };
    section_spec("Files touched"@, shown.map_values(|p: (Seq<char>, nat)| file_label(p.0, p.1)))
        + section_spec("Read first"@, s.read_first.deep_view()) + section_spec(
        "Remembered"@,
        s.remembered.deep_view(),
    ) + section_spec("Failing at end"@, s.failing.deep_view()) + section_spec(
        "Commands"@,
        s.commands.deep_view(),
    )
}

pub open spec fn git_head(git: GitState) -> Seq<char> {
    (if git.branch@.len() == 0 {
        "(no branch)"@
    } else {
        git.branch@
    }) + " @ "@ + (if git.sha@.len() == 0 {
        "(no commits)"@
    } else {
        git.sha@
    })
}

pub open spec fn git_dirty(d: Seq<Seq<char>>) -> Seq<char> {
    if d.len() == 0 {
        ", clean\n"@
    } else {
        ", "@ + dec(d.len()) + " dirty:\n"@ + bullets(
            if d.len() <= HANDOFF_DIRTY {
                d
            } else {
                d.take(HANDOFF_DIRTY as int)
            },
        ) + if d.len() > HANDOFF_DIRTY {
            "- … +"@ + dec((d.len() - HANDOFF_DIRTY) as nat) + "\n"@
        } else {
            seq![]
        }
    }
}

pub open spec fn git_spec(git: GitState) -> Seq<char> {
    "## Git\n"@ + git_head(git) + git_dirty(git.dirty.deep_view())
}

pub open spec fn render_spec(h: Header, s: Summary, t: Tail, git: GitState) -> Seq<char> {
    frontmatter_spec(h, s, t, git) + heading_spec(git.branch@, h.ended@) + stop_spec(s, t)
        + conversation_spec(s, t) + work_spec(s) + git_spec(git)
}

fn fm_head_exec(h: &Header, s: &Summary, git: &GitState, d: &Vec<char>) -> (r: Vec<char>)
    requires
        d@ == day(h.ended@),
    ensures
        r@ == fm_head(*h, *s, *git),
{
    let mut title = chars_of("Handoff · ");
    if !git.branch.as_str().is_empty() {
        push_text(&mut title, git.branch.as_str());
        push_text(&mut title, " · ");
    }
    push_all(&mut title, d);
    proof {
        assert(title@ =~= title_spec(git.branch@, h.ended@));
    }
    let mut b = chars_of("---\ntype: Handoff\ntitle: ");
    let q = quote_chars(&title);
    push_all(&mut b, &q);
    push_text(&mut b, "\ntimestamp: ");
    push_text(&mut b, h.ended);
    push_text(&mut b, "\nsession: ");
    push_text(&mut b, h.session);
    push_text(&mut b, "\nharness: ");
    push_text(&mut b, s.harness.as_str());
    b
}

fn fm_git_exec(git: &GitState) -> (r: Vec<char>)
    ensures
        r@ == fm_git(*git),
{
    let mut b = chars_of("\nbranch: ");
    push_text(&mut b, git.branch.as_str());
    push_text(&mut b, "\nsha: ");
    push_text(&mut b, git.sha.as_str());
    push_text(&mut b, "\ndirty: ");
    push_dec(&mut b, git.dirty.len() as u64);
    b
}

fn fm_tail_exec(h: &Header, s: &Summary, t: &Tail) -> (r: Vec<char>)
    ensures
        r@ == fm_tail(*h, *s, *t),
{
    let mut b = chars_of("\nstarted: ");
    push_text(&mut b, s.started.as_str());
    push_text(&mut b, "\nended: ");
    push_text(&mut b, h.ended);
    push_text(&mut b, "\nreason: ");
    push_text(&mut b, h.reason);
    push_text(&mut b, "\n");
    let ghost mid = b@;
    if t.headless {
        push_text(&mut b, "headless: true\n");
    }
    push_text(&mut b, "---\n\n");
    proof {
        assert(b@ =~= fm_tail(*h, *s, *t));
    }
    b
}

fn push_frontmatter(b: &mut Vec<char>, h: &Header, s: &Summary, t: &Tail, git: &GitState, d: &Vec<char>)
    requires
        d@ == day(h.ended@),
    ensures
        final(b)@ == old(b)@ + frontmatter_spec(*h, *s, *t, *git),
{
    let ghost start = b@;
    let x = fm_head_exec(h, s, git, d);
    let y = fm_git_exec(git);
    let z = fm_tail_exec(h, s, t);
    push_all(b, &x);
    push_all(b, &y);
    push_all(b, &z);
    proof {
        lemma_cat3(start, x@, y@, z@);
    }
}

fn map_truncate(v: &Vec<String>, from: usize, max: usize) -> (r: Vec<Vec<char>>)
    requires
        from <= v@.len(),
    ensures
        r.deep_view() == v.deep_view().skip(from as int).map_values(|d: Seq<char>| truncate_spec(d, max as nat)),
{
    let mut r: Vec<Vec<char>> = Vec::new();
    let mut i: usize = from;
    while i < v.len()
        invariant
            from <= i <= v@.len(),
            r.deep_view() =~= v.deep_view().subrange(from as int, i as int).map_values(
                |d: Seq<char>| truncate_spec(d, max as nat),
            ),
        decreases v@.len() - i,
    {
        let c = chars_of(v[i].as_str());
        let x = truncate_chars(&c, max);
        proof {
            assert(x.deep_view() =~= x@);
        }
        let ghost before = r.deep_view();
        r.push(x);
        proof {
            assert(r.deep_view() =~= before.push(x@));
            assert(v.deep_view()[i as int] == v@[i as int]@);
            assert(v.deep_view().subrange(from as int, i + 1) =~= v.deep_view().subrange(from as int, i as int).push(
                v.deep_view()[i as int],
            ));
        }
        i += 1;
    }
    proof {
        assert(v.deep_view().subrange(from as int, v@.len() as int) =~= v.deep_view().skip(from as int));
    }
    r
}

fn strings_as_chars(v: &Vec<String>) -> (r: Vec<Vec<char>>)
    ensures
        r.deep_view() == v.deep_view(),
{
    let mut r: Vec<Vec<char>> = Vec::new();
    let mut i: usize = 0;
    while i < v.len()
        invariant
            i <= v@.len(),
            r.deep_view() =~= v.deep_view().take(i as int),
        decreases v@.len() - i,
    {
        let c = chars_of(v[i].as_str());
        proof {
            assert(c.deep_view() =~= c@);
        }
        let ghost before = r.deep_view();
        r.push(c);
        proof {
            assert(r.deep_view() =~= before.push(c@));
            assert(v.deep_view().take(i + 1) =~= v.deep_view().take(i as int).push(v@[i as int]@));
        }
        i += 1;
    }
    proof {
        assert(v.deep_view().take(v@.len() as int) =~= v.deep_view());
    }
    r
}

#[verifier::rlimit(60)]
fn push_conversation(b: &mut Vec<char>, s: &Summary, t: &Tail)
    ensures
        final(b)@ == old(b)@ + conversation_spec(*s, *t),
{
    let ghost start = b@;
    let decisions = map_truncate(&t.decisions, 0, HANDOFF_DECISION_CHARS);
    proof {
        assert(t.decisions.deep_view().skip(0) =~= t.decisions.deep_view());
    }
    push_section(b, "Decisions", &decisions);
    let skip = if s.prompts.len() > 6 {
        s.prompts.len() - 6
    } else {
        0
    };
    let asked = map_truncate(&s.prompts, skip, HANDOFF_PROMPT_CHARS);
    push_section(b, "Asked", &asked);
    let n = t.replies.len();
    let earlier = if n > 1 {
        n - 1
    } else {
        0
    };
    let from = if earlier > HANDOFF_EARLIER_REPLIES {
        earlier - HANDOFF_EARLIER_REPLIES
    } else {
        0
    };
    let mut shown: Vec<Vec<char>> = Vec::new();
    let mut i: usize = from;
    let ghost rs = t.replies.deep_view();
    while i < earlier
        invariant
            rs == t.replies.deep_view(),
            from <= i <= earlier,
            earlier <= rs.len(),
            shown.deep_view() =~= rs.subrange(from as int, i as int).map_values(
                |r: Seq<char>| first_paragraph_spec(r, HANDOFF_EARLIER_REPLY_CHARS as nat),
            ),
        decreases earlier - i,
    {
        let p = first_paragraph(t.replies[i].as_str(), HANDOFF_EARLIER_REPLY_CHARS);
        let pc = chars_of(p.as_str());
        proof {
            assert(pc.deep_view() =~= pc@);
        }
        let ghost before = shown.deep_view();
        shown.push(pc);
        proof {
            assert(shown.deep_view() =~= before.push(pc@));
            assert(rs[i as int] == t.replies@[i as int]@);
            assert(rs.subrange(from as int, i + 1) =~= rs.subrange(from as int, i as int).push(rs[i as int]));
        }
        i += 1;
    }
    proof {
        assert(earlier_replies(rs) =~= rs.subrange(from as int, earlier as int));
    }
    push_section(b, "Earlier replies", &shown);
    match &t.plan {
        Some(p) => {
            push_text(b, "## Plan\n");
            let e = excerpt(p.as_str(), HANDOFF_PLAN_CHARS);
            push_text(b, e.as_str());
            push_text(b, "\n\n");
        },
        None => {},
    }
    proof {
        assert(b@ =~= start + conversation_spec(*s, *t));
    }
}

fn push_work(b: &mut Vec<char>, s: &Summary)
    ensures
        final(b)@ == old(b)@ + work_spec(*s),
{
    let ghost start = b@;
    let ghost fs = files_view(s.files@);
    let n = if s.files.len() <= HANDOFF_FILES {
        s.files.len()
    } else {
        HANDOFF_FILES
    };
    let mut files: Vec<Vec<char>> = Vec::new();
    let mut i: usize = 0;
    while i < n
        invariant
            fs == files_view(s.files@),
            n <= s.files@.len(),
            i <= n,
            files.deep_view() =~= fs.take(i as int).map_values(|p: (Seq<char>, nat)| file_label(p.0, p.1)),
        decreases n - i,
    {
        let mut l = chars_of(s.files[i].0.as_str());
        let k = s.files[i].1;
        if k > 1 {
            push_text(&mut l, " (×");
            push_dec(&mut l, k as u64);
            push_text(&mut l, ")");
        }
        proof {
            assert(l.deep_view() =~= l@);
            assert(fs[i as int] == (s.files@[i as int].0@, s.files@[i as int].1 as nat));
        }
        let ghost before = files.deep_view();
        files.push(l);
        proof {
            assert(files.deep_view() =~= before.push(l@));
            assert(fs.take(i + 1) =~= fs.take(i as int).push(fs[i as int]));
        }
        i += 1;
    }
    proof {
        if fs.len() <= HANDOFF_FILES {
            assert(fs.take(n as int) =~= fs);
        }
    }
    let rf = strings_as_chars(&s.read_first);
    let rm = strings_as_chars(&s.remembered);
    let fl = strings_as_chars(&s.failing);
    let cm = strings_as_chars(&s.commands);
    push_section(b, "Files touched", &files);
    push_section(b, "Read first", &rf);
    push_section(b, "Remembered", &rm);
    push_section(b, "Failing at end", &fl);
    push_section(b, "Commands", &cm);
    proof {
        lemma_cat5(
            start,
            section_spec("Files touched"@, files.deep_view()),
            section_spec("Read first"@, rf.deep_view()),
            section_spec("Remembered"@, rm.deep_view()),
            section_spec("Failing at end"@, fl.deep_view()),
            section_spec("Commands"@, cm.deep_view()),
        );
    }
}

fn git_head_exec(git: &GitState) -> (r: Vec<char>)
    ensures
        r@ == git_head(*git),
{
    let mut b: Vec<char> = Vec::new();
    if git.branch.as_str().is_empty() {
        push_text(&mut b, "(no branch)");
    } else {
        push_text(&mut b, git.branch.as_str());
    }
    push_text(&mut b, " @ ");
    if git.sha.as_str().is_empty() {
        push_text(&mut b, "(no commits)");
    } else {
        push_text(&mut b, git.sha.as_str());
    }
    proof {
        assert(b@ =~= git_head(*git));
    }
    b
}

fn git_dirty_exec(dirty: &Vec<String>) -> (r: Vec<char>)
    ensures
        r@ == git_dirty(dirty.deep_view()),
{
    let ghost d = dirty.deep_view();
    let n = dirty.len();
    let mut b: Vec<char> = Vec::new();
    if n == 0 {
        push_text(&mut b, ", clean\n");
        proof {
            assert(b@ =~= git_dirty(d));
        }
        return b;
    }
    push_text(&mut b, ", ");
    push_dec(&mut b, n as u64);
    push_text(&mut b, " dirty:\n");
    let shown = if n <= HANDOFF_DIRTY {
        n
    } else {
        HANDOFF_DIRTY
    };
    let ghost mid = b@;
    let mut i: usize = 0;
    proof {
        assert(d.take(0) =~= Seq::<Seq<char>>::empty());
        assert(b@ =~= mid + bullets(d.take(0)));
    }
    while i < shown
        invariant
            d == dirty.deep_view(),
            shown <= d.len(),
            i <= shown,
            b@ == mid + bullets(d.take(i as int)),
        decreases shown - i,
    {
        push_text(&mut b, "- ");
        push_text(&mut b, dirty[i].as_str());
        push_text(&mut b, "\n");
        proof {
            let tk = d.take(i + 1);
            assert(tk.drop_last() =~= d.take(i as int));
            assert(tk.last() == dirty@[i as int]@);
        }
        i += 1;
    }
    if n > HANDOFF_DIRTY {
        push_text(&mut b, "- … +");
        push_dec(&mut b, (n - HANDOFF_DIRTY) as u64);
        push_text(&mut b, "\n");
    }
    proof {
        if d.len() <= HANDOFF_DIRTY {
            assert(d.take(shown as int) =~= d);
        }
        assert(b@ =~= git_dirty(d));
    }
    b
}

fn push_git(b: &mut Vec<char>, git: &GitState)
    ensures
        final(b)@ == old(b)@ + git_spec(*git),
{
    let ghost start = b@;
    push_text(b, "## Git\n");
    let h = git_head_exec(git);
    push_all(b, &h);
    let d = git_dirty_exec(&git.dirty);
    push_all(b, &d);
    proof {
        lemma_cat3(start, "## Git\n"@, h@, d@);
    }
}

fn push_stop(b: &mut Vec<char>, s: &Summary, t: &Tail)
    ensures
        final(b)@ == old(b)@ + stop_spec(*s, *t),
{
    let ghost start = b@;
    if t.replies.len() > 0 {
        push_text(b, "## Where it stopped\n");
        let e = excerpt(t.replies[t.replies.len() - 1].as_str(), HANDOFF_STOPPED_CHARS);
        push_text(b, e.as_str());
        push_text(b, "\n\n");
    } else {
        match &s.last_reply {
            Some(l) => {
                push_text(b, "## Last reply\n");
                let c = chars_of(l.as_str());
                let x = truncate_chars(&c, HANDOFF_LAST_REPLY_CHARS);
                push_all(b, &x);
                push_text(b, "\n\n");
            },
            None => {},
        }
    }
    proof {
        assert(b@ =~= start + stop_spec(*s, *t));
    }
}

/// The handoff as markdown. The end time's tenth byte must fall between
/// two characters, as slicing it there needs.
#[verifier::rlimit(60)]
pub fn render(h: &Header, s: &Summary, t: &Tail, git: &GitState) -> (r: String)
    requires
        cuts_at(h.ended@, 10),
    ensures
        r@ == render_spec(*h, *s, *t, *git),
{
    let ended = chars_of(h.ended);
    let d = byte_prefix_exec(&ended, 10);
    let mut b: Vec<char> = Vec::new();
    push_frontmatter(&mut b, h, s, t, git, &d);
    push_text(&mut b, "# Handoff · ");
    if !git.branch.as_str().is_empty() {
        push_text(&mut b, git.branch.as_str());
        push_text(&mut b, " · ");
    }
    push_all(&mut b, &d);
    push_text(&mut b, "\n\n");
    push_stop(&mut b, s, t);
    push_conversation(&mut b, s, t);
    push_work(&mut b, s);
    push_git(&mut b, git);
    proof {
        assert(b@ =~= render_spec(*h, *s, *t, *git));
    }
    string_of(&b)
}

} // verus!
