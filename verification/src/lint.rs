//! Size budgets for what agents read over and over: plan docs, notes on
//! finished tasks, ADR implementation sections, instruction files, the
//! memory index and commit subjects. Each check is a rule of shape (bytes,
//! lines, a heading's first word, a marker a Markdown renderer knows), so
//! it holds in any language.

use vstd::prelude::*;

use crate::fmt::{dec, human_bytes, human_bytes_spec, push_all, push_dec, push_text, truncate_chars, truncate_spec};
use crate::limits::{
    LINT_ADR_SECTION_LINES, LINT_DOC_BYTES, LINT_DONE_LINES, LINT_INDEX_BYTES, LINT_INSTRUCTIONS_BYTES,
    LINT_SUBJECT_CHARS,
};
use crate::pattern::{is_match, regex_matches};
use crate::outline::{entries_view, is_markdown, is_markdown_spec, of, of_spec, EntryV};
use crate::text::{
    ascii_lower, byte_len, chars_eq, chars_of, has_prefix, is_blank, lines, lines_of, lowercase, split_char,
    split_on, str_eq, string_of, to_lowercase, trim, trim_spec, trim_start_spec, utf8_len, ws_prefix,
    ws_prefix_len,
};

verus! {

/// One budget a file or message is over.
#[derive(Debug, PartialEq, Eq)]
pub struct Finding {
    /// `path` or `path:line`, or `commit message`.
    pub at: String,
    pub what: String,
}

#[verifier::ext_equal]
pub struct FindingV {
    pub at: Seq<char>,
    pub what: Seq<char>,
}

impl Finding {
    pub open spec fn view(&self) -> FindingV {
        FindingV { at: self.at@, what: self.what@ }
    }
}

pub open spec fn findings_view(v: Seq<Finding>) -> Seq<FindingV> {
    v.map_values(|f: Finding| f.view())
}

/// A checked box or a check mark standing alone.
pub open spec fn checked_pattern() -> Seq<char> {
    "(^|\\s)(\\[[xX]\\]|✅|✓|✔)(\\s|$)"@
}

/// A checked list item.
pub open spec fn item_pattern() -> Seq<char> {
    "^(\\s*)[-*+] \\[[xX]\\] "@
}

pub open spec fn matches(pattern: Seq<char>, text: Seq<char>) -> bool {
    regex_matches(pattern, text) == Some(true)
}

fn matches_exec(pattern: &str, text: &[char]) -> (r: bool)
    ensures
        r == matches(pattern@, text@),
{
    let t = string_of(text);
    match is_match(pattern, t.as_str()) {
        Some(b) => b,
        None => false,
    }
}

// ---------------------------------------------------------------------------
// Lines
// ---------------------------------------------------------------------------

pub open spec fn blank(l: Seq<char>) -> bool {
    trim_spec(l).len() == 0
}

/// Non-blank lines among `ls[from..to]`.
pub open spec fn nonblank_count(ls: Seq<Seq<char>>, from: int, to: int) -> nat
    decreases to - from,
{
    if from >= to {
        0
    } else {
        nonblank_count(ls, from, to - 1) + if blank(ls[to - 1]) {
            0nat
        } else {
            1nat
        }
    }
}

/// Non-blank lines of a section, headings of subsections included.
pub open spec fn own_lines(ls: Seq<Seq<char>>, start: nat, end: nat) -> nat {
    let a = if start <= ls.len() {
        start
    } else {
        ls.len()
    };
    let b = if end <= ls.len() {
        end
    } else {
        ls.len()
    };
    nonblank_count(ls, a as int, b as int)
}

fn own_lines_exec(ls: &Vec<Vec<char>>, start: usize, end: usize) -> (n: usize)
    ensures
        n == own_lines(ls.deep_view(), start as nat, end as nat),
        n <= ls@.len(),
{
    let a = if start <= ls.len() {
        start
    } else {
        ls.len()
    };
    let b = if end <= ls.len() {
        end
    } else {
        ls.len()
    };
    if b < a {
        return 0;
    }
    let mut n: usize = 0;
    let mut i = a;
    while i < b
        invariant
            a <= i <= b,
            b <= ls@.len(),
            n == nonblank_count(ls.deep_view(), a as int, i as int),
            n <= i - a,
        decreases b - i,
    {
        proof {
            assert(ls.deep_view()[i as int] == ls@[i as int]@);
        }
        if !is_blank(&ls[i]) {
            n += 1;
        }
        i += 1;
    }
    n
}

/// A real heading: the line an entry starts at opens with `#`.
pub open spec fn is_heading(ls: Seq<Seq<char>>, e: EntryV) -> bool {
    1 <= e.start <= ls.len() && has_prefix(trim_start_spec(ls[e.start - 1]), "#"@)
}

fn is_heading_exec(ls: &Vec<Vec<char>>, start: usize) -> (r: bool)
    ensures
        r == (1 <= start <= ls@.len() && has_prefix(trim_start_spec(ls.deep_view()[start - 1]), "#"@)),
{
    if start < 1 || start > ls.len() {
        return false;
    }
    let t = crate::text::trim_start(&ls[start - 1]);
    proof {
        assert(ls.deep_view()[start - 1] == ls@[start - 1]@);
    }
    let h = chars_of("#");
    crate::text::starts_with(&t, &h)
}

pub open spec fn done_what(title: Seq<char>, n: nat) -> Seq<char> {
    "\""@ + truncate_spec(title, 60) + "\" is done but keeps "@ + dec(n) + " lines; leave "@ + dec(
        LINT_DONE_LINES as nat,
    ) + ", git has the rest"@
}

pub open spec fn at_line(rel: Seq<char>, line: nat) -> Seq<char> {
    rel + ":"@ + dec(line)
}

/// Finished sections whose notes run past the budget, in outline order.
pub open spec fn done_headings(es: Seq<EntryV>, ls: Seq<Seq<char>>, rel: Seq<char>) -> Seq<FindingV>
    decreases es.len(),
{
    if es.len() == 0 {
        seq![]
    } else {
        let rest = done_headings(es.drop_last(), ls, rel);
        let e = es.last();
        let body = own_lines(ls, e.start, e.end);
        if is_heading(ls, e) && matches(checked_pattern(), e.title) && body > LINT_DONE_LINES {
            rest.push(FindingV { at: at_line(rel, e.start), what: done_what(e.title, body) })
        } else {
            rest
        }
    }
}

/// Bytes of leading whitespace.
pub open spec fn indent_of(l: Seq<char>) -> nat {
    utf8_len(l.take(ws_prefix_len(l) as int))
}

/// Lines after `i` that continue its item: non-blank, indented deeper
/// than `indent`, and not items themselves.
pub open spec fn continuation(ls: Seq<Seq<char>>, i: int, indent: nat) -> nat
    decreases ls.len() - i,
{
    if i + 1 >= ls.len() || i + 1 < 0 {
        0
    } else {
        let n = ls[i + 1];
        if !blank(n) && indent_of(n) > indent && !matches(item_pattern(), n) {
            1 + continuation(ls, i + 1, indent)
        } else {
            0
        }
    }
}

/// Finished list items whose notes run past the budget, in line order.
pub open spec fn done_items(ls: Seq<Seq<char>>, k: nat, rel: Seq<char>) -> Seq<FindingV>
    decreases k,
{
    if k == 0 || k > ls.len() {
        seq![]
    } else {
        let rest = done_items(ls, (k - 1) as nat, rel);
        let i = k - 1;
        let l = ls[i];
        let more = continuation(ls, i, indent_of(l));
        if matches(item_pattern(), l) && more + 1 > LINT_DONE_LINES {
            rest.push(FindingV { at: at_line(rel, k), what: done_what(trim_spec(l), more + 1) })
        } else {
            rest
        }
    }
}

/// A finished task (a checked box or a check mark in its heading or list
/// item) keeps a one-line note; its history is in git.
pub open spec fn done_notes_spec(rel: Seq<char>, text: Seq<char>) -> Seq<FindingV> {
    let ls = lines_of(text);
    done_headings(of_spec(text, true), ls, rel) + done_items(ls, ls.len(), rel)
}

fn done_what_exec(title: &[char], n: usize) -> (r: Vec<char>)
    ensures
        r@ == done_what(title@, n as nat),
{
    let mut v = chars_of("\"");
    let t = truncate_chars(title, 60);
    push_all(&mut v, &t);
    push_text(&mut v, "\" is done but keeps ");
    push_dec(&mut v, n as u64);
    push_text(&mut v, " lines; leave ");
    push_dec(&mut v, LINT_DONE_LINES as u64);
    push_text(&mut v, ", git has the rest");
    v
}

fn at_line_exec(rel: &str, line: usize) -> (r: String)
    ensures
        r@ == at_line(rel@, line as nat),
{
    let mut v = chars_of(rel);
    push_text(&mut v, ":");
    push_dec(&mut v, line as u64);
    string_of(&v)
}

fn indent_exec(l: &[char]) -> (n: u128)
    ensures
        n == indent_of(l@),
{
    let w = ws_prefix(l);
    proof {
        crate::text::lemma_ws_prefix_len(l@);
    }
    let p = crate::text::slice(l, 0, w);
    proof {
        assert(p@ =~= l@.take(w as int));
    }
    byte_len(&p)
}

fn continues(next: &Vec<char>, indent: u128) -> (r: bool)
    ensures
        r == (!blank(next@) && indent_of(next@) > indent && !matches(item_pattern(), next@)),
{
    !is_blank(next) && indent_exec(next) > indent && !matches_exec("^(\\s*)[-*+] \\[[xX]\\] ", next)
}

fn continuation_exec(ls: &Vec<Vec<char>>, i: usize, indent: u128) -> (n: usize)
    requires
        i < ls@.len(),
    ensures
        n == continuation(ls.deep_view(), i as int, indent as nat),
        i + n < ls@.len(),
{
    let ghost lv = ls.deep_view();
    let mut j = i;
    let n = ls.len();
    let mut going = true;
    while going && j + 1 < n
        invariant
            lv == ls.deep_view(),
            n == ls@.len(),
            i <= j < n,
            (j - i) + continuation(lv, j as int, indent as nat) == continuation(lv, i as int, indent as nat),
            !going ==> continuation(lv, j as int, indent as nat) == 0,
        decreases n - j + if going { 1int } else { 0int },
    {
        let next = &ls[j + 1];
        proof {
            assert(lv[j + 1] == next@);
        }
        if continues(next, indent) {
            j += 1;
        } else {
            going = false;
        }
    }
    j - i
}

/// The findings for finished sections among the outline's entries.
fn heading_findings(rel: &str, ls: &Vec<Vec<char>>, es: &Vec<crate::outline::Entry>) -> (r: Vec<Finding>)
    ensures
        findings_view(r@) == done_headings(entries_view(es@), ls.deep_view(), rel@),
{
    let ghost lv = ls.deep_view();
    let ghost ev = entries_view(es@);
    let mut out: Vec<Finding> = Vec::new();
    let mut k: usize = 0;
    proof {
        assert(ev.take(0) =~= Seq::<EntryV>::empty());
    }
    while k < es.len()
        invariant
            lv == ls.deep_view(),
            ev == entries_view(es@),
            k <= es@.len(),
            findings_view(out@) == done_headings(ev.take(k as int), lv, rel@),
        decreases es@.len() - k,
    {
        let e = &es[k];
        proof {
            assert(ev.take(k + 1).drop_last() =~= ev.take(k as int));
            assert(ev.take(k + 1).last() == e.view());
        }
        let title = chars_of(e.title.as_str());
        if is_heading_exec(ls, e.start) && matches_exec("(^|\\s)(\\[[xX]\\]|✅|✓|✔)(\\s|$)", &title) {
            let body = own_lines_exec(ls, e.start, e.end);
            if body > LINT_DONE_LINES {
                let w = done_what_exec(&title, body);
                let f = Finding { at: at_line_exec(rel, e.start), what: string_of(&w) };
                let ghost before = out@;
                out.push(f);
                proof {
                    assert(findings_view(out@) =~= findings_view(before).push(f.view()));
                }
            }
        }
        k += 1;
    }
    proof {
        assert(ev.take(es@.len() as int) =~= ev);
    }
    out
}

/// The findings for finished list items, in line order.
fn item_findings(rel: &str, ls: &Vec<Vec<char>>) -> (r: Vec<Finding>)
    ensures
        findings_view(r@) == done_items(ls.deep_view(), ls@.len() as nat, rel@),
{
    let ghost lv = ls.deep_view();
    let mut out: Vec<Finding> = Vec::new();
    let mut i: usize = 0;
    proof {
        assert(findings_view(out@) =~= Seq::<FindingV>::empty());
    }
    while i < ls.len()
        invariant
            lv == ls.deep_view(),
            i <= ls@.len(),
            findings_view(out@) == done_items(lv, i as nat, rel@),
        decreases ls@.len() - i,
    {
        let l = &ls[i];
        proof {
            assert(lv[i as int] == l@);
        }
        if matches_exec("^(\\s*)[-*+] \\[[xX]\\] ", l) {
            let ind = indent_exec(l);
            let more = continuation_exec(ls, i, ind);
            if more + 1 > LINT_DONE_LINES {
                let t = trim(l);
                let w = done_what_exec(&t, more + 1);
                let f = Finding { at: at_line_exec(rel, i + 1), what: string_of(&w) };
                let ghost before = out@;
                out.push(f);
                proof {
                    assert(findings_view(out@) =~= findings_view(before).push(f.view()));
                }
            }
        }
        i += 1;
    }
    out
}

fn append_findings(out: &mut Vec<Finding>, more: &Vec<Finding>)
    ensures
        findings_view(final(out)@) == findings_view(old(out)@) + findings_view(more@),
{
    let ghost start = findings_view(out@);
    let mut i: usize = 0;
    while i < more.len()
        invariant
            i <= more@.len(),
            findings_view(out@) =~= start + findings_view(more@).take(i as int),
        decreases more@.len() - i,
    {
        let f = Finding { at: more[i].at.clone(), what: more[i].what.clone() };
        let ghost before = out@;
        out.push(f);
        proof {
            assert(findings_view(out@) =~= findings_view(before).push(f.view()));
            assert(findings_view(more@).take(i + 1) =~= findings_view(more@).take(i as int).push(
                more@[i as int].view(),
            ));
        }
        i += 1;
    }
    proof {
        assert(findings_view(more@).take(more@.len() as int) =~= findings_view(more@));
    }
}

fn done_notes(rel: &str, text: &str) -> (r: Vec<Finding>)
    ensures
        findings_view(r@) == done_notes_spec(rel@, text@),
{
    let ls = lines(&chars_of(text));
    let es = of(text, true);
    let mut out = heading_findings(rel, &ls, &es);
    let items = item_findings(rel, &ls);
    append_findings(&mut out, &items);
    out
}

// ---------------------------------------------------------------------------
// ADRs
// ---------------------------------------------------------------------------

pub open spec fn adr_dir(d: Seq<char>) -> bool {
    let l = ascii_lower(d);
    l == "adr"@ || l == "adrs"@ || l == "decisions"@
}

/// An ADR lives under a directory named for them.
pub open spec fn is_adr_spec(rel: Seq<char>) -> bool {
    let parts = split_on(rel, '/');
    exists|i: int| 0 <= i < parts.len() - 1 && adr_dir(#[trigger] parts[i])
}

fn is_adr(rel: &str) -> (r: bool)
    ensures
        r == is_adr_spec(rel@),
{
    let rc = chars_of(rel);
    let parts = split_char(&rc, '/');
    let ghost pv = parts.deep_view();
    proof {
        assert(pv == split_on(rel@, '/'));
    }
    let last = parts.len() - 1;
    let mut i: usize = 0;
    while i < last
        invariant
            pv == parts.deep_view(),
            last == parts@.len() - 1,
            pv == split_on(rel@, '/'),
            i <= last,
            forall|j: int| 0 <= j < i ==> !adr_dir(#[trigger] pv[j]),
        decreases parts@.len() - i,
    {
        let p = &parts[i];
        let low = crate::text::ascii_lower_exec(p);
        proof {
            assert(pv[i as int] == p@);
        }
        if chars_eq(&low, &chars_of("adr")) || chars_eq(&low, &chars_of("adrs")) || chars_eq(
            &low,
            &chars_of("decisions"),
        ) {
            proof {
                assert(adr_dir(pv[i as int]));
                assert(split_on(rel@, '/')[i as int] == pv[i as int]);
            }
            return true;
        }
        i += 1;
    }
    false
}

pub open spec fn adr_what(title: Seq<char>, n: nat) -> Seq<char> {
    "\""@ + title + "\" has "@ + dec(n) + " lines, over "@ + dec(LINT_ADR_SECTION_LINES as nat)
        + ": point at the code instead of retelling it"@
}

/// An ADR's implementation section (its heading starts with "Implement",
/// in whatever case, which covers implementation, implementação and
/// implementación) says where the code is, in a few lines.
pub open spec fn adr_findings(es: Seq<EntryV>, ls: Seq<Seq<char>>, rel: Seq<char>) -> Seq<FindingV>
    decreases es.len(),
{
    if es.len() == 0 {
        seq![]
    } else {
        let rest = adr_findings(es.drop_last(), ls, rel);
        let e = es.last();
        let n = own_lines(ls, e.start, e.end);
        if is_heading(ls, e) && has_prefix(lowercase(e.title), "implement"@) && n > LINT_ADR_SECTION_LINES {
            rest.push(FindingV { at: at_line(rel, e.start), what: adr_what(e.title, n) })
        } else {
            rest
        }
    }
}

fn adr_sections(rel: &str, text: &str) -> (r: Vec<Finding>)
    ensures
        findings_view(r@) == adr_findings(of_spec(text@, true), lines_of(text@), rel@),
{
    let ls = lines(&chars_of(text));
    let ghost lv = ls.deep_view();
    let es = of(text, true);
    let ghost ev = entries_view(es@);
    let mut out: Vec<Finding> = Vec::new();
    let mut k: usize = 0;
    proof {
        assert(ev.take(0) =~= Seq::<EntryV>::empty());
    }
    while k < es.len()
        invariant
            lv == ls.deep_view(),
            ev == entries_view(es@),
            k <= es@.len(),
            findings_view(out@) == adr_findings(ev.take(k as int), lv, rel@),
        decreases es@.len() - k,
    {
        let e = &es[k];
        proof {
            assert(ev.take(k + 1).drop_last() =~= ev.take(k as int));
            assert(ev.take(k + 1).last() == e.view());
        }
        let low = to_lowercase(e.title.as_str());
        if is_heading_exec(&ls, e.start) && crate::text::str_starts_with(low.as_str(), "implement") {
            let n = own_lines_exec(&ls, e.start, e.end);
            if n > LINT_ADR_SECTION_LINES {
                let mut w = chars_of("\"");
                push_text(&mut w, e.title.as_str());
                push_text(&mut w, "\" has ");
                push_dec(&mut w, n as u64);
                push_text(&mut w, " lines, over ");
                push_dec(&mut w, LINT_ADR_SECTION_LINES as u64);
                push_text(&mut w, ": point at the code instead of retelling it");
                let f = Finding { at: at_line_exec(rel, e.start), what: string_of(&w) };
                let ghost before = out@;
                out.push(f);
                proof {
                    assert(findings_view(out@) =~= findings_view(before).push(f.view()));
                }
            }
        }
        k += 1;
    }
    proof {
        assert(ev.take(es@.len() as int) =~= ev);
    }
    out
}

// ---------------------------------------------------------------------------
// Files and messages
// ---------------------------------------------------------------------------

/// The size finding for a file, when it is over its budget.
pub open spec fn size_finding(rel: Seq<char>, size: nat) -> Option<FindingV> {
    let name = split_on(rel, '/').last();
    if (name == "AGENTS.md"@ || name == "GEMINI.md"@) && size > LINT_INSTRUCTIONS_BYTES {
        Some(
            FindingV {
                at: rel,
                what: "is "@ + human_bytes_spec(size) + ", over "@ + human_bytes_spec(LINT_INSTRUCTIONS_BYTES as nat)
                    + ": every call of every session carries it; move detail into docs it points to"@,
            },
        )
    } else if rel == ".relay/index.md"@ && size > LINT_INDEX_BYTES {
        Some(
            FindingV {
                at: rel,
                what: "is "@ + human_bytes_spec(size) + ", over "@ + human_bytes_spec(LINT_INDEX_BYTES as nat)
                    + ": see what to merge or drop with `relay compile --hygiene`"@,
            },
        )
    } else if is_markdown_spec(rel) && size > LINT_DOC_BYTES {
        Some(
            FindingV {
                at: rel,
                what: "is "@ + human_bytes_spec(size) + ", over "@ + human_bytes_spec(LINT_DOC_BYTES as nat)
                    + ": split it by phase or area; agents read it by section"@,
            },
        )
    } else {
        None
    }
}

/// Every check that applies to the Markdown file `rel` with `text`.
pub open spec fn file_spec(rel: Seq<char>, text: Seq<char>) -> Seq<FindingV> {
    let sized = match size_finding(rel, utf8_len(text)) {
        Some(f) => seq![f],
        None => seq![],
    };
    if is_markdown_spec(rel) {
        sized + done_notes_spec(rel, text) + if is_adr_spec(rel) {
            adr_findings(of_spec(text, true), lines_of(text), rel)
        } else {
            seq![]
        }
    } else {
        sized
    }
}

fn size_what(size: u64, budget: u64, tail: &str) -> (r: String)
    ensures
        r@ == "is "@ + human_bytes_spec(size as nat) + ", over "@ + human_bytes_spec(budget as nat) + tail@,
{
    let mut v = chars_of("is ");
    let a = human_bytes(size);
    push_all(&mut v, &a);
    push_text(&mut v, ", over ");
    let b = human_bytes(budget);
    push_all(&mut v, &b);
    push_text(&mut v, tail);
    string_of(&v)
}

/// Every check that applies to the Markdown file `rel` with `text`.
/// Texts of more than `u64::MAX` bytes are beyond what a file holds.
pub fn file(rel: &str, text: &str) -> (r: Vec<Finding>)
    requires
        utf8_len(text@) <= u64::MAX,
    ensures
        findings_view(r@) == file_spec(rel@, text@),
{
    let mut out: Vec<Finding> = Vec::new();
    let rc = chars_of(rel);
    let parts = split_char(&rc, '/');
    let name = &parts[parts.len() - 1];
    proof {
        assert(parts.deep_view().last() == name@);
    }
    let size = byte_len(&chars_of(text)) as u64;
    let md = is_markdown(rel);
    if (chars_eq(name, &chars_of("AGENTS.md")) || chars_eq(name, &chars_of("GEMINI.md")))
        && size > LINT_INSTRUCTIONS_BYTES {
        let w = size_what(
            size,
            LINT_INSTRUCTIONS_BYTES,
            ": every call of every session carries it; move detail into docs it points to",
        );
        out.push(Finding { at: rel.to_string(), what: w });
    } else if str_eq(rel, ".relay/index.md") && size > LINT_INDEX_BYTES {
        let w = size_what(size, LINT_INDEX_BYTES, ": see what to merge or drop with `relay compile --hygiene`");
        out.push(Finding { at: rel.to_string(), what: w });
    } else if md && size > LINT_DOC_BYTES {
        let w = size_what(size, LINT_DOC_BYTES, ": split it by phase or area; agents read it by section");
        out.push(Finding { at: rel.to_string(), what: w });
    }
    let ghost sized = findings_view(out@);
    proof {
        let s = size_finding(rel@, utf8_len(text@));
        match s {
            Some(f) => assert(sized =~= seq![f]),
            None => assert(sized =~= Seq::<FindingV>::empty()),
        }
    }
    if md {
        let d = done_notes(rel, text);
        append_findings(&mut out, &d);
        let ghost mid = findings_view(out@);
        if is_adr(rel) {
            let a = adr_sections(rel, text);
            append_findings(&mut out, &a);
        } else {
            proof {
                assert(findings_view(out@) =~= mid + Seq::<FindingV>::empty());
            }
        }
    }
    out
}

/// The first line of a message that is neither blank nor a `#` comment.
pub open spec fn first_subject(ls: Seq<Seq<char>>) -> Option<Seq<char>>
    decreases ls.len(),
{
    if ls.len() == 0 {
        None
    } else if !blank(ls[0]) && !has_prefix(ls[0], "#"@) {
        Some(ls[0])
    } else {
        first_subject(ls.drop_first())
    }
}

pub open spec fn subject_spec(message: Seq<char>) -> Option<FindingV> {
    match first_subject(lines_of(message)) {
        Some(l) => if l.len() > LINT_SUBJECT_CHARS {
            Some(
                FindingV {
                    at: "commit message"@,
                    what: "subject is "@ + dec(l.len()) + " characters, over "@ + dec(LINT_SUBJECT_CHARS as nat)
                        + ": `git log --oneline` cuts it"@,
                },
            )
        } else {
            None
        },
        None => None,
    }
}

/// A commit message's subject line.
pub fn subject(message: &str) -> (r: Option<Finding>)
    ensures
        match r {
            Some(f) => subject_spec(message@) == Some(f.view()),
            None => subject_spec(message@) is None,
        },
{
    let mc = chars_of(message);
    let ls = lines(&mc);
    let ghost lv = ls.deep_view();
    let hash = chars_of("#");
    proof {
        assert(lv == lines_of(message@));
    }
    let mut i: usize = 0;
    proof {
        assert(lv.skip(0) =~= lv);
    }
    while i < ls.len()
        invariant
            lv == ls.deep_view(),
            hash@ == "#"@,
            i <= ls@.len(),
            first_subject(lv.skip(i as int)) == first_subject(lv),
            lv == lines_of(message@),
        decreases ls@.len() - i,
    {
        let l = &ls[i];
        proof {
            assert(lv.skip(i as int)[0] == l@);
            assert(lv.skip(i as int).drop_first() =~= lv.skip(i + 1));
        }
        if !is_blank(l) && !crate::text::starts_with(l, &hash) {
            proof {
                assert(first_subject(lv.skip(i as int)) == Some(l@));
            }
            if l.len() > LINT_SUBJECT_CHARS {
                let mut w = chars_of("subject is ");
                push_dec(&mut w, l.len() as u64);
                push_text(&mut w, " characters, over ");
                push_dec(&mut w, LINT_SUBJECT_CHARS as u64);
                push_text(&mut w, ": `git log --oneline` cuts it");
                return Some(Finding { at: "commit message".to_string(), what: string_of(&w) });
            }
            return None;
        }
        i += 1;
    }
    proof {
        assert(lv.skip(ls@.len() as int) =~= Seq::<Seq<char>>::empty());
    }
    None
}

} // verus!
