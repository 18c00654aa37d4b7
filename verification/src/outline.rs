//! The outline of a text file: Markdown headings, or a code file's
//! top-level items, each with the lines it spans. Cheap line scanning, no
//! parser: it only has to tell an agent which range to read.

use vstd::prelude::*;

use crate::fmt::{truncate_chars, truncate_spec};
use crate::text::{
    ascii_lower, chars_of, copy_chars, has_prefix, has_suffix, is_blank, lines, lines_of, slice, starts_with,
    string_of, trim, trim_end, trim_end_spec, trim_spec, trim_start, trim_start_spec,
};

verus! {

pub struct Entry {
    /// Heading level for Markdown (1 for `#`); 1 for a code item.
    pub depth: usize,
    pub title: String,
    /// First and last line, 1-based and inclusive.
    pub start: usize,
    pub end: usize,
}

#[verifier::ext_equal]
pub struct EntryV {
    pub depth: nat,
    pub title: Seq<char>,
    pub start: nat,
    pub end: nat,
}

impl Entry {
    pub open spec fn view(&self) -> EntryV {
        EntryV { depth: self.depth as nat, title: self.title@, start: self.start as nat, end: self.end as nat }
    }

    pub fn copy(&self) -> (e: Entry)
        ensures
            e.view() == self.view(),
    {
        Entry { depth: self.depth, title: self.title.clone(), start: self.start, end: self.end }
    }
}

pub open spec fn entries_view(v: Seq<Entry>) -> Seq<EntryV> {
    v.map_values(|e: Entry| e.view())
}

pub const TITLE_CHARS: usize = 100;

/// Lines per chunk when a text has no structure.
pub const CHUNK_LINES: usize = 400;

pub open spec fn is_markdown_spec(path: Seq<char>) -> bool {
    let lower = ascii_lower(path);
    has_suffix(lower, ".md"@) || has_suffix(lower, ".markdown"@) || has_suffix(lower, ".mdx"@)
}

fn lower_chars(s: &[char]) -> (r: Vec<char>)
    ensures
        r@ == ascii_lower(s@),
{
    let mut r: Vec<char> = Vec::new();
    let mut i: usize = 0;
    while i < s.len()
        invariant
            i <= s.len(),
            r@ =~= ascii_lower(s@).take(i as int),
        decreases s.len() - i,
    {
        r.push(crate::text::to_ascii_lower(s[i]));
        proof {
            assert(ascii_lower(s@).take(i + 1) =~= ascii_lower(s@).take(i as int).push(
                crate::text::ascii_lower_char(s@[i as int]),
            ));
        }
        i += 1;
    }
    proof {
        assert(ascii_lower(s@).take(s@.len() as int) =~= ascii_lower(s@));
    }
    r
}

pub fn is_markdown(path: &str) -> (r: bool)
    ensures
        r == is_markdown_spec(path@),
{
    let lower = lower_chars(&chars_of(path));
    let a = chars_of(".md");
    let b = chars_of(".markdown");
    let c = chars_of(".mdx");
    crate::text::ends_with(&lower, &a) || crate::text::ends_with(&lower, &b) || crate::text::ends_with(&lower, &c)
}

// ---------------------------------------------------------------------------
// Markdown headings
// ---------------------------------------------------------------------------

/// Number of leading `#`.
pub open spec fn hashes(l: Seq<char>) -> nat
    decreases l.len(),
{
    if l.len() > 0 && l[0] == '#' {
        1 + hashes(l.drop_first())
    } else {
        0
    }
}

proof fn lemma_hashes_is(l: Seq<char>, h: int)
    requires
        0 <= h <= l.len(),
        forall|i: int| 0 <= i < h ==> l[i] == '#',
        h == l.len() || l[h] != '#',
    ensures
        hashes(l) == h,
    decreases h,
{
    if h > 0 {
        lemma_hashes_is(l.drop_first(), h - 1);
    }
}

fn count_hashes(l: &[char]) -> (h: usize)
    ensures
        h == hashes(l@),
        h <= l@.len(),
{
    let mut h: usize = 0;
    while h < l.len() && l[h] == '#'
        invariant
            h <= l.len(),
            forall|i: int| 0 <= i < h ==> l@[i] == '#',
        decreases l.len() - h,
    {
        h += 1;
    }
    proof {
        lemma_hashes_is(l@, h as int);
    }
    h
}

/// `s` without its trailing `#`.
pub open spec fn strip_hashes_end(s: Seq<char>) -> Seq<char>
    decreases s.len(),
{
    if s.len() > 0 && s.last() == '#' {
        strip_hashes_end(s.drop_last())
    } else {
        s
    }
}

fn strip_hashes_end_exec(s: &[char]) -> (r: Vec<char>)
    ensures
        r@ == strip_hashes_end(s@),
{
    let mut n = s.len();
    proof {
        assert(s@.take(s@.len() as int) =~= s@);
    }
    while n > 0 && s[n - 1] == '#'
        invariant
            n <= s.len(),
            strip_hashes_end(s@.take(n as int)) == strip_hashes_end(s@),
        decreases n,
    {
        proof {
            assert(s@.take(n as int).drop_last() =~= s@.take(n - 1));
        }
        n -= 1;
    }
    proof {
        assert(s@.take(s@.len() as int) =~= s@);
    }
    let r = slice(s, 0, n);
    proof {
        assert(r@ =~= s@.take(n as int));
    }
    r
}

/// Which fence a trimmed line opens or closes.
pub open spec fn fence_of(t: Seq<char>) -> Option<Seq<char>> {
    if has_prefix(t, "```"@) {
        Some("```"@)
    } else if has_prefix(t, "~~~"@) {
        Some("~~~"@)
    } else {
        None
    }
}

/// The heading a line is, as (depth, title), when it is one.
pub open spec fn heading_of(l: Seq<char>) -> Option<(nat, Seq<char>)> {
    let t = trim_start_spec(l);
    let d = hashes(t);
    if 1 <= d <= 6 && d < t.len() && t[d as int] == ' ' {
        Some((d, trim_spec(strip_hashes_end(trim_spec(t.skip(d as int))))))
    } else {
        None
    }
}

/// The fence open after line `k` and the headings found before it, each
/// spanning to the end of the text for now.
pub open spec fn scan(ls: Seq<Seq<char>>, k: nat) -> (Option<Seq<char>>, Seq<EntryV>)
    decreases k,
{
    if k == 0 {
        (None, seq![])
    } else {
        let (fence, found) = scan(ls, (k - 1) as nat);
        let l = ls[k - 1];
        let t = trim_start_spec(l);
        match fence_of(t) {
            Some(f) => (
                match fence {
                    Some(open) => if open == f {
                        None
                    } else {
                        Some(open)
                    },
                    None => Some(f),
                },
                found,
            ),
            None => if fence is Some || has_prefix(l, "    "@) {
                (fence, found)
            } else {
                match heading_of(l) {
                    Some((d, title)) => (
                        fence,
                        found.push(
                            EntryV {
                                depth: d,
                                title: truncate_spec(title, TITLE_CHARS as nat),
                                start: k,
                                end: ls.len(),
                            },
                        ),
                    ),
                    None => (fence, found),
                }
            },
        }
    }
}

/// Index of the next entry at the same or a higher level, or -1.
pub open spec fn next_peer(es: Seq<EntryV>, i: int) -> int {
    if exists|j: int| i < j < es.len() && es[j].depth <= es[i].depth {
        choose|j: int| i < j < es.len() && es[j].depth <= es[i].depth && forall|m: int| i < m < j ==> es[m].depth > es[i].depth
    } else {
        -1
    }
}

/// A section ends where the next heading of the same or a higher level
/// starts.
pub open spec fn headings_spec(ls: Seq<Seq<char>>) -> Seq<EntryV> {
    let es = scan(ls, ls.len()).1;
    Seq::new(
        es.len(),
        |i: int|
            EntryV {
                end: if next_peer(es, i) >= 0 {
                    (es[next_peer(es, i)].start - 1) as nat
                } else {
                    ls.len()
                },
                ..es[i]
            },
    )
}

proof fn lemma_scan_starts(ls: Seq<Seq<char>>, k: nat)
    requires
        k <= ls.len(),
    ensures
        forall|i: int| 0 <= i < scan(ls, k).1.len() ==> 1 <= #[trigger] scan(ls, k).1[i].start <= k,
        forall|i: int, j: int| 0 <= i < j < scan(ls, k).1.len() ==> #[trigger] scan(ls, k).1[i].start < #[trigger] scan(ls, k).1[j].start,
    decreases k,
{
    if k > 0 {
        lemma_scan_starts(ls, (k - 1) as nat);
        let prev = scan(ls, (k - 1) as nat).1;
        let cur = scan(ls, k).1;
        assert(cur == prev || (cur.len() == prev.len() + 1 && cur.drop_last() == prev && cur.last().start == k));
        if cur != prev {
            assert forall|i: int| 0 <= i < cur.len() implies 1 <= #[trigger] cur[i].start <= k by {
                if i < prev.len() {
                    assert(cur[i] == cur.drop_last()[i]);
                }
            }
            assert forall|i: int, j: int| 0 <= i < j < cur.len() implies #[trigger] cur[i].start < #[trigger] cur[j].start by {
                assert(cur[i] == cur.drop_last()[i]);
                if j < prev.len() {
                    assert(cur[j] == cur.drop_last()[j]);
                }
            }
        }
    }
}

fn heading_exec(l: &[char]) -> (r: Option<(usize, Vec<char>)>)
    ensures
        match r {
            Some((d, t)) => heading_of(l@) == Some((d as nat, t@)),
            None => heading_of(l@) is None,
        },
{
    let t = trim_start(l);
    let d = count_hashes(&t);
    if 1 <= d && d <= 6 && d < t.len() && t[d] == ' ' {
        let rest = slice(&t, d, t.len());
        proof {
            assert(rest@ =~= t@.skip(d as int));
        }
        let a = trim(&rest);
        let b = strip_hashes_end_exec(&a);
        let c = trim(&b);
        Some((d, c))
    } else {
        None
    }
}

fn headings(ls: &Vec<Vec<char>>) -> (r: Vec<Entry>)
    ensures
        entries_view(r@) == headings_spec(ls.deep_view()),
{
    let ghost lv = ls.deep_view();
    let n = ls.len();
    let mut out: Vec<Entry> = Vec::new();
    // 0: none, 1: ```, 2: ~~~
    let mut fence: u8 = 0;
    let f1 = chars_of("```");
    let f2 = chars_of("~~~");
    let four = chars_of("    ");
    let mut i: usize = 0;
    while i < n
        invariant
            lv == ls.deep_view(),
            n == ls@.len(),
            f1@ == "```"@,
            f2@ == "~~~"@,
            four@ == "    "@,
            i <= n,
            scan(lv, i as nat).0 == (if fence == 0 {
                None
            } else if fence == 1 {
                Some("```"@)
            } else {
                Some("~~~"@)
            }),
            fence <= 2,
            entries_view(out@) == scan(lv, i as nat).1,
        decreases n - i,
    {
        let l = &ls[i];
        proof {
            assert(lv[i as int] == l@);
        }
        let t = trim_start(l);
        let which: u8 = if starts_with(&t, &f1) {
            1
        } else if starts_with(&t, &f2) {
            2
        } else {
            0
        };
        if which != 0 {
            if fence == which {
                fence = 0;
            } else if fence == 0 {
                fence = which;
            }
            proof {
                reveal_strlit("```");
                reveal_strlit("~~~");
                assert("```"@ != "~~~"@) by {
                    assert("```"@[0] != "~~~"@[0]);
                }
            }
        } else if fence == 0 && !starts_with(l, &four) {
            match heading_exec(l) {
                Some((d, title)) => {
                    let tt = truncate_chars(&title, TITLE_CHARS);
                    let e = Entry { depth: d, title: string_of(&tt), start: i + 1, end: n };
                    let ghost before = out@;
                    out.push(e);
                    proof {
                        assert(entries_view(out@) =~= entries_view(before).push(e.view()));
                    }
                },
                None => {},
            }
        }
        i += 1;
    }
    proof {
        lemma_scan_starts(lv, n as nat);
    }
    let ghost es = entries_view(out@);
    let mut k: usize = 0;
    while k < out.len()
        invariant
            lv == ls.deep_view(),
            n == ls@.len(),
            es == scan(lv, n as nat).1,
            forall|a: int| 0 <= a < es.len() ==> 1 <= #[trigger] es[a].start <= n,
            out@.len() == es.len(),
            k <= out@.len(),
            forall|a: int| 0 <= a < k ==> (#[trigger] entries_view(out@)[a]) == headings_spec(lv)[a],
            forall|a: int| k <= a < out@.len() ==> (#[trigger] entries_view(out@)[a]) == es[a],
        decreases out@.len() - k,
    {
        let mut j = k + 1;
        while j < out.len() && out[j].depth > out[k].depth
            invariant
                out@.len() == es.len(),
                k < j <= out@.len(),
                forall|a: int| k <= a < out@.len() ==> (#[trigger] entries_view(out@)[a]) == es[a],
                forall|m: int| k < m < j ==> es[m].depth > es[k as int].depth,
            decreases out@.len() - j,
        {
            proof {
                assert(entries_view(out@)[j as int] == es[j as int]);
                assert(entries_view(out@)[k as int] == es[k as int]);
            }
            j += 1;
        }
        proof {
            assert(entries_view(out@)[k as int] == es[k as int]);
            if j < out@.len() {
                assert(entries_view(out@)[j as int] == es[j as int]);
                let p = next_peer(es, k as int);
                assert(es[j as int].depth <= es[k as int].depth);
                if p != j {
                    if p < j {
                        assert(es[p].depth > es[k as int].depth);
                    } else {
                        assert(es[j as int].depth > es[k as int].depth);
                    }
                }
            } else {
                assert(next_peer(es, k as int) == -1);
            }
        }
        proof {
            if j < out@.len() {
                assert(out@[j as int].start as nat == es[j as int].start);
            }
        }
        let end = if j < out.len() {
            out[j].start - 1
        } else {
            n
        };
        let ghost prev = out@;
        out[k].end = end;
        proof {
            assert forall|a: int| 0 <= a < out@.len() && a != k implies #[trigger] entries_view(out@)[a] == entries_view(prev)[a] by {
                assert(out@[a] == prev[a]);
            }
            assert(entries_view(out@)[k as int] =~= headings_spec(lv)[k as int]);
        }
        k += 1;
    }
    proof {
        assert(entries_view(out@) =~= headings_spec(lv));
    }
    out
}

// ---------------------------------------------------------------------------
// Code blocks
// ---------------------------------------------------------------------------

pub open spec fn opens_item(l: Seq<char>) -> bool {
    l.len() > 0 && l[0] != ' ' && l[0] != '\t' && l[0] != '}' && l[0] != ')' && l[0] != ']'
}

pub open spec fn blank(l: Seq<char>) -> bool {
    trim_spec(l).len() == 0
}

pub open spec fn indented(l: Seq<char>) -> bool {
    l.len() > 0 && (l[0] == ' ' || l[0] == '\t') && !blank(l)
}

/// Index of the first non-blank line after `i`, or -1.
pub open spec fn next_nonblank(ls: Seq<Seq<char>>, i: int) -> int {
    if exists|j: int| i < j < ls.len() && !blank(ls[j]) {
        choose|j: int| i < j < ls.len() && !blank(ls[j]) && forall|m: int| i < m < j ==> blank(ls[m])
    } else {
        -1
    }
}

/// A line at column 0 that opens an indented block below it.
pub open spec fn block_start(ls: Seq<Seq<char>>, i: int) -> bool {
    opens_item(ls[i]) && next_nonblank(ls, i) >= 0 && indented(ls[next_nonblank(ls, i)])
}

pub open spec fn starts_of(ls: Seq<Seq<char>>, k: nat) -> Seq<nat>
    decreases k,
{
    if k == 0 {
        seq![]
    } else {
        let rest = starts_of(ls, (k - 1) as nat);
        if block_start(ls, k - 1) {
            rest.push((k - 1) as nat)
        } else {
            rest
        }
    }
}

/// A trimmed line that leads into the item after it.
pub open spec fn leads(t: Seq<char>) -> bool {
    t.len() == 0 || has_prefix(t, "//"@) || has_prefix(t, "#"@) || has_prefix(t, "/*"@) || has_prefix(t, "*"@)
        || has_prefix(t, "@"@) || has_prefix(t, "--"@)
}

/// How far an item runs before the one at `next`: blank lines, comments
/// and attributes leading into that one are not part of it.
pub open spec fn lead_back(ls: Seq<Seq<char>>, end: nat) -> nat
    decreases end,
{
    if end == 0 || end > ls.len() {
        end
    } else {
        let l = ls[end - 1];
        if !leads(trim_start_spec(l)) || (l.len() > 0 && (l[0] == ' ' || l[0] == '\t')) {
            end
        } else {
            lead_back(ls, (end - 1) as nat)
        }
    }
}

pub open spec fn last_before_spec(ls: Seq<Seq<char>>, next: nat) -> nat {
    let e = lead_back(ls, next);
    if e >= 1 {
        e
    } else {
        1
    }
}

pub open spec fn blocks_spec(ls: Seq<Seq<char>>) -> Seq<EntryV> {
    let st = starts_of(ls, ls.len());
    Seq::new(
        st.len(),
        |k: int|
            EntryV {
                depth: 1,
                title: truncate_spec(trim_end_spec(ls[st[k] as int]), TITLE_CHARS as nat),
                start: st[k] + 1,
                end: if k + 1 < st.len() {
                    last_before_spec(ls, st[k + 1])
                } else {
                    ls.len()
                },
            },
    )
}

fn leads_exec(t: &[char]) -> (r: bool)
    ensures
        r == leads(t@),
{
    t.len() == 0 || starts_with(t, &chars_of("//")) || starts_with(t, &chars_of("#")) || starts_with(
        t,
        &chars_of("/*"),
    ) || starts_with(t, &chars_of("*")) || starts_with(t, &chars_of("@")) || starts_with(t, &chars_of("--"))
}

fn leads_into(ls: &Vec<Vec<char>>, end: usize) -> (r: bool)
    requires
        0 < end <= ls@.len(),
    ensures
        r == (leads(trim_start_spec(ls.deep_view()[end - 1])) && !(ls.deep_view()[end - 1].len() > 0 && (
        ls.deep_view()[end - 1][0] == ' ' || ls.deep_view()[end - 1][0] == '\t'))),
{
    let l = &ls[end - 1];
    proof {
        assert(ls.deep_view()[end - 1] == l@);
    }
    let t = trim_start(l);
    leads_exec(&t) && !(l.len() > 0 && (l[0] == ' ' || l[0] == '\t'))
}

fn last_before(ls: &Vec<Vec<char>>, next: usize) -> (r: usize)
    requires
        next <= ls@.len(),
    ensures
        r == last_before_spec(ls.deep_view(), next as nat),
{
    let ghost lv = ls.deep_view();
    let mut end = next;
    while end > 0 && leads_into(ls, end)
        invariant
            lv == ls.deep_view(),
            end <= next <= ls@.len(),
            lead_back(lv, end as nat) == lead_back(lv, next as nat),
        decreases end,
    {
        end -= 1;
    }
    if end >= 1 {
        end
    } else {
        1
    }
}

fn is_blank_line(l: &[char]) -> (r: bool)
    ensures
        r == blank(l@),
{
    is_blank(l)
}

fn next_nonblank_exec(ls: &Vec<Vec<char>>, i: usize) -> (r: Option<usize>)
    requires
        i < ls@.len(),
    ensures
        match r {
            Some(j) => next_nonblank(ls.deep_view(), i as int) == j as int && i < j < ls@.len(),
            None => next_nonblank(ls.deep_view(), i as int) == -1,
        },
{
    let ghost lv = ls.deep_view();
    let n = ls.len();
    let mut j = i + 1;
    while j < n
        invariant
            lv == ls.deep_view(),
            n == ls@.len(),
            i < j <= ls@.len(),
            forall|m: int| i < m < j ==> blank(lv[m]),
        decreases ls@.len() - j,
    {
        proof {
            assert(lv[j as int] == ls@[j as int]@);
        }
        if !is_blank_line(&ls[j]) {
            proof {
                let c = next_nonblank(lv, i as int);
                if c != j {
                    if c < j {
                        assert(blank(lv[c]));
                    } else {
                        assert(!blank(lv[j as int]));
                    }
                }
            }
            return Some(j);
        }
        j += 1;
    }
    None
}

#[verifier::rlimit(40)]
fn is_start(ls: &Vec<Vec<char>>, i: usize) -> (r: bool)
    requires
        i < ls@.len(),
    ensures
        r == block_start(ls.deep_view(), i as int),
{
    let ghost lv = ls.deep_view();
    let l = &ls[i];
    proof {
        assert(lv[i as int] == l@);
    }
    let opens = l.len() > 0 && l[0] != ' ' && l[0] != '\t' && l[0] != '}' && l[0] != ')' && l[0] != ']';
    if !opens {
        return false;
    }
    match next_nonblank_exec(ls, i) {
        Some(j) => {
            let m = &ls[j];
            proof {
                assert(lv[j as int] == m@);
            }
            let r = m.len() > 0 && (m[0] == ' ' || m[0] == '\t') && !is_blank_line(m);
            proof {
                assert(r == indented(lv[j as int]));
                assert(opens_item(lv[i as int]));
            }
            r
        },
        None => false,
    }
}

#[verifier::rlimit(40)]
fn blocks(ls: &Vec<Vec<char>>) -> (r: Vec<Entry>)
    ensures
        entries_view(r@) == blocks_spec(ls.deep_view()),
{
    let ghost lv = ls.deep_view();
    let n = ls.len();
    let mut starts: Vec<usize> = Vec::new();
    let mut i: usize = 0;
    while i < n
        invariant
            lv == ls.deep_view(),
            n == ls@.len(),
            i <= n,
            starts@.map_values(|x: usize| x as nat) =~= starts_of(lv, i as nat),
            forall|a: int| 0 <= a < starts@.len() ==> #[trigger] starts@[a] < i,
        decreases n - i,
    {
        let ghost prev = starts_of(lv, i as nat);
        proof {
            assert(starts_of(lv, (i + 1) as nat) == if block_start(lv, i as int) {
                prev.push(i as nat)
            } else {
                prev
            });
        }
        if is_start(ls, i) {
            let ghost before = starts@;
            starts.push(i);
            proof {
                assert(starts@.map_values(|x: usize| x as nat) =~= before.map_values(|x: usize| x as nat).push(i as nat));
            }
        }
        i += 1;
    }
    let ghost st = starts_of(lv, n as nat);
    let mut out: Vec<Entry> = Vec::new();
    let mut k: usize = 0;
    while k < starts.len()
        invariant
            lv == ls.deep_view(),
            n == ls@.len(),
            st == starts_of(lv, n as nat),
            starts@.map_values(|x: usize| x as nat) =~= st,
            forall|a: int| 0 <= a < starts@.len() ==> #[trigger] starts@[a] < n,
            k <= starts@.len(),
            entries_view(out@) =~= blocks_spec(lv).take(k as int),
        decreases starts@.len() - k,
    {
        let s = starts[k];
        let end = if k + 1 < starts.len() {
            last_before(ls, starts[k + 1])
        } else {
            n
        };
        let te = trim_end(&ls[s]);
        let tt = truncate_chars(&te, TITLE_CHARS);
        let e = Entry { depth: 1, title: string_of(&tt), start: s + 1, end };
        let ghost before = out@;
        out.push(e);
        proof {
            assert(lv[s as int] == ls@[s as int]@);
            assert(st[k as int] == s as nat);
            assert(e.view() == blocks_spec(lv)[k as int]);
            assert(entries_view(out@) =~= entries_view(before).push(e.view()));
            assert(blocks_spec(lv).take(k + 1) =~= blocks_spec(lv).take(k as int).push(blocks_spec(lv)[k as int]));
        }
        k += 1;
    }
    proof {
        assert(blocks_spec(lv).take(st.len() as int) =~= blocks_spec(lv));
    }
    out
}

// ---------------------------------------------------------------------------
// Chunks
// ---------------------------------------------------------------------------

/// The first non-blank line in `[from, to)`, trimmed; empty when none.
pub open spec fn first_text(ls: Seq<Seq<char>>, from: int, to: int) -> Seq<char>
    decreases to - from,
{
    if from >= to {
        seq![]
    } else if !blank(ls[from]) {
        trim_spec(ls[from])
    } else {
        first_text(ls, from + 1, to)
    }
}

pub open spec fn chunks_spec(ls: Seq<Seq<char>>) -> Seq<EntryV> {
    let n = ls.len();
    let count = (n + CHUNK_LINES - 1) / (CHUNK_LINES as int);
    Seq::new(
        count as nat,
        |c: int|
            {
                let start = c * CHUNK_LINES;
                let end = if start + CHUNK_LINES <= n {
                    start + CHUNK_LINES
                } else {
                    n as int
                };
                EntryV {
                    depth: 1,
                    title: truncate_spec(first_text(ls, start, end), TITLE_CHARS as nat),
                    start: (start + 1) as nat,
                    end: end as nat,
                }
            },
    )
}

fn first_text_exec(ls: &Vec<Vec<char>>, from: usize, to: usize) -> (r: Vec<char>)
    requires
        from <= to <= ls@.len(),
    ensures
        r@ == first_text(ls.deep_view(), from as int, to as int),
{
    let ghost lv = ls.deep_view();
    let mut i = from;
    while i < to
        invariant
            lv == ls.deep_view(),
            from <= i <= to <= ls@.len(),
            first_text(lv, i as int, to as int) == first_text(lv, from as int, to as int),
        decreases to - i,
    {
        proof {
            assert(lv[i as int] == ls@[i as int]@);
        }
        if !is_blank_line(&ls[i]) {
            return trim(&ls[i]);
        }
        i += 1;
    }
    Vec::new()
}

proof fn lemma_chunk_count(n: int, c: int)
    requires
        n >= 0,
        c >= 0,
    ensures
        c < (n + CHUNK_LINES - 1) / (CHUNK_LINES as int) <==> c * (CHUNK_LINES as int) < n,
        (n + CHUNK_LINES - 1) / (CHUNK_LINES as int) == n / (CHUNK_LINES as int) + if n % (CHUNK_LINES as int) == 0 {
            0int
        } else {
            1int
        },
{
    assert(c < (n + 399) / 400 <==> c * 400 < n) by (nonlinear_arith)
        requires
            n >= 0,
            c >= 0,
    ;
    assert((n + 399) / 400 == n / 400 + if n % 400 == 0 {
        0int
    } else {
        1int
    }) by (nonlinear_arith)
        requires
            n >= 0,
    ;
}

fn chunks(ls: &Vec<Vec<char>>) -> (r: Vec<Entry>)
    ensures
        entries_view(r@) == chunks_spec(ls.deep_view()),
{
    let ghost lv = ls.deep_view();
    let n = ls.len();
    let count = n / CHUNK_LINES + if n % CHUNK_LINES == 0 {
        0
    } else {
        1
    };
    proof {
        lemma_chunk_count(n as int, 0);
    }
    let mut out: Vec<Entry> = Vec::new();
    let mut start: usize = 0;
    let mut c: usize = 0;
    while c < count
        invariant
            lv == ls.deep_view(),
            n == ls@.len(),
            count == (n + CHUNK_LINES - 1) / (CHUNK_LINES as int),
            start == c * CHUNK_LINES || c == count,
            c <= count,
            entries_view(out@) =~= chunks_spec(lv).take(c as int),
        decreases count - c,
    {
        proof {
            lemma_chunk_count(n as int, c as int);
        }
        let end = if n - start >= CHUNK_LINES {
            start + CHUNK_LINES
        } else {
            n
        };
        let t = first_text_exec(ls, start, end);
        let tt = truncate_chars(&t, TITLE_CHARS);
        let e = Entry { depth: 1, title: string_of(&tt), start: start + 1, end };
        let ghost before = out@;
        out.push(e);
        proof {
            assert(e.view() == chunks_spec(lv)[c as int]);
            assert(entries_view(out@) =~= entries_view(before).push(e.view()));
            assert(chunks_spec(lv).take(c + 1) =~= chunks_spec(lv).take(c as int).push(chunks_spec(lv)[c as int]));
        }
        c += 1;
        proof {
            lemma_chunk_count(n as int, c as int);
        }
        if c < count {
            start = start + CHUNK_LINES;
        }
    }
    proof {
        assert(chunks_spec(lv).take(c as int) =~= chunks_spec(lv));
    }
    out
}

/// The outline of `text`, read as Markdown when `markdown`, as code
/// otherwise; fixed chunks when neither finds any structure.
pub open spec fn of_spec(text: Seq<char>, markdown: bool) -> Seq<EntryV> {
    let ls = lines_of(text);
    let found = if markdown {
        headings_spec(ls)
    } else {
        blocks_spec(ls)
    };
    if found.len() == 0 {
        chunks_spec(ls)
    } else {
        found
    }
}

pub fn of(text: &str, markdown: bool) -> (r: Vec<Entry>)
    ensures
        entries_view(r@) == of_spec(text@, markdown),
{
    let ls = lines(&chars_of(text));
    let found = if markdown {
        headings(&ls)
    } else {
        blocks(&ls)
    };
    if found.len() == 0 {
        chunks(&ls)
    } else {
        found
    }
}


// ---------------------------------------------------------------------------
// Picking what to show
// ---------------------------------------------------------------------------

/// Entries at depth `d` or shallower.
pub open spec fn upto(es: Seq<EntryV>, d: nat) -> nat
    decreases es.len(),
{
    if es.len() == 0 {
        0
    } else {
        upto(es.drop_last(), d) + if es.last().depth <= d {
            1nat
        } else {
            0nat
        }
    }
}

pub open spec fn max_depth(es: Seq<EntryV>) -> nat
    decreases es.len(),
{
    if es.len() == 0 {
        0
    } else {
        let m = max_depth(es.drop_last());
        if es.last().depth > m {
            es.last().depth
        } else {
            m
        }
    }
}

/// The deepest level, 1 for no entries.
pub open spec fn deepest(es: Seq<EntryV>) -> nat {
    if es.len() == 0 {
        1
    } else {
        max_depth(es)
    }
}

/// The deepest level at or above `d` (and at least 1) whose entries all fit.
pub open spec fn fit_depth(es: Seq<EntryV>, max: nat, d: nat) -> Option<nat>
    decreases d,
{
    if d == 0 {
        None
    } else if upto(es, d) <= max {
        Some(d)
    } else {
        fit_depth(es, max, (d - 1) as nat)
    }
}

/// Entries one level below `depth` met since the last entry at `depth` or
/// above, before index `i`.
pub open spec fn seen_before(es: Seq<EntryV>, depth: nat, i: int) -> nat
    decreases i,
{
    if i <= 0 {
        0
    } else {
        let e = es[i - 1];
        if e.depth <= depth {
            0
        } else if e.depth == depth + 1 {
            seen_before(es, depth, i - 1) + 1
        } else {
            seen_before(es, depth, i - 1)
        }
    }
}

/// Each entry one level deeper than `depth`, numbered within its parent.
pub open spec fn nth(es: Seq<EntryV>, depth: nat, i: int) -> Option<nat> {
    if es[i].depth == depth + 1 {
        Some(seen_before(es, depth, i))
    } else {
        None
    }
}

pub open spec fn numbered_below(es: Seq<EntryV>, depth: nat, i: int, k: nat) -> bool {
    match nth(es, depth, i) {
        Some(n) => n < k,
        None => false,
    }
}

/// How many of the first `n` entries are numbered below `k`.
pub open spec fn below(es: Seq<EntryV>, depth: nat, k: nat, n: int) -> nat
    decreases n,
{
    if n <= 0 {
        0
    } else {
        below(es, depth, k, n - 1) + if numbered_below(es, depth, n - 1, k) {
            1nat
        } else {
            0nat
        }
    }
}

/// Entries shown with every level down to `depth` and the first `k`
/// children of each parent one level deeper.
pub open spec fn shown_with(es: Seq<EntryV>, depth: nat, k: nat) -> nat {
    upto(es, depth) + below(es, depth, k, es.len() as int)
}

pub open spec fn grows(es: Seq<EntryV>, depth: nat, top: nat, max: nat, k: nat) -> bool {
    depth < top && shown_with(es, depth, k + 1) <= max && shown_with(es, depth, k + 1) > shown_with(es, depth, k)
}

/// Children per parent: as many as still fit and still add entries.
pub open spec fn children(es: Seq<EntryV>, depth: nat, top: nat, max: nat, k: nat) -> nat
    decreases max - shown_with(es, depth, k),
{
    if grows(es, depth, top, max, k) {
        children(es, depth, top, max, k + 1)
    } else {
        k
    }
}

pub open spec fn kept(es: Seq<EntryV>, depth: nat, k: nat, i: int) -> bool {
    es[i].depth <= depth || numbered_below(es, depth, i, k)
}

/// The first `n` entries that are kept, in order.
pub open spec fn keep(es: Seq<EntryV>, depth: nat, k: nat, n: int) -> Seq<EntryV>
    decreases n,
{
    if n <= 0 {
        seq![]
    } else {
        let rest = keep(es, depth, k, n - 1);
        if kept(es, depth, k, n - 1) {
            rest.push(es[n - 1])
        } else {
            rest
        }
    }
}

/// At most `max` entries, in file order: every level that fits whole,
/// then the first entries of the next level under each parent.
pub open spec fn pick_spec(es: Seq<EntryV>, max: nat) -> Seq<EntryV> {
    match fit_depth(es, max, deepest(es)) {
        None => es.take(if max < es.len() {
            max as int
        } else {
            es.len() as int
        }),
        Some(depth) => keep(es, depth, children(es, depth, deepest(es), max, 0), es.len() as int),
    }
}

proof fn lemma_seen_before_le(es: Seq<EntryV>, depth: nat, i: int)
    ensures
        seen_before(es, depth, i) <= if i < 0 {
            0
        } else {
            i
        },
    decreases i,
{
    if i > 0 {
        lemma_seen_before_le(es, depth, i - 1);
    }
}

/// Raising `k` by one adds only entries numbered `k`, and one exists
/// among the first `n` when it adds any.
proof fn lemma_below_step(es: Seq<EntryV>, depth: nat, k: nat, n: int)
    requires
        n <= es.len(),
    ensures
        below(es, depth, k + 1, n) >= below(es, depth, k, n),
        below(es, depth, k + 1, n) > below(es, depth, k, n) ==> k < n,
    decreases n,
{
    if n > 0 {
        lemma_below_step(es, depth, k, n - 1);
        lemma_seen_before_le(es, depth, n - 1);
    }
}

proof fn lemma_keep_len(es: Seq<EntryV>, depth: nat, k: nat, n: int)
    ensures
        keep(es, depth, k, n).len() <= if n < 0 {
            0
        } else {
            n
        },
    decreases n,
{
    if n > 0 {
        lemma_keep_len(es, depth, k, n - 1);
    }
}

pub proof fn lemma_pick_len(es: Seq<EntryV>, max: nat)
    ensures
        pick_spec(es, max).len() <= es.len(),
{
    match fit_depth(es, max, deepest(es)) {
        None => {},
        Some(depth) => lemma_keep_len(es, depth, children(es, depth, deepest(es), max, 0), es.len() as int),
    }
}

fn upto_exec(es: &Vec<Entry>, d: usize) -> (n: usize)
    ensures
        n == upto(entries_view(es@), d as nat),
        n <= es@.len(),
{
    let ghost ev = entries_view(es@);
    let mut n: usize = 0;
    let mut i: usize = 0;
    while i < es.len()
        invariant
            ev == entries_view(es@),
            i <= es@.len(),
            n <= i,
            n == upto(ev.take(i as int), d as nat),
        decreases es@.len() - i,
    {
        proof {
            assert(ev.take(i + 1).drop_last() =~= ev.take(i as int));
        }
        if es[i].depth <= d {
            n += 1;
        }
        i += 1;
    }
    proof {
        assert(ev.take(es@.len() as int) =~= ev);
    }
    n
}

fn deepest_exec(es: &Vec<Entry>) -> (d: usize)
    ensures
        d == deepest(entries_view(es@)),
{
    let ghost ev = entries_view(es@);
    if es.len() == 0 {
        return 1;
    }
    let mut m: usize = 0;
    let mut i: usize = 0;
    while i < es.len()
        invariant
            ev == entries_view(es@),
            i <= es@.len(),
            m == max_depth(ev.take(i as int)),
        decreases es@.len() - i,
    {
        proof {
            assert(ev.take(i + 1).drop_last() =~= ev.take(i as int));
        }
        if es[i].depth > m {
            m = es[i].depth;
        }
        i += 1;
    }
    proof {
        assert(ev.take(es@.len() as int) =~= ev);
    }
    m
}

/// Each entry's number within its parent, for entries one level below
/// `depth`.
fn numbers(es: &Vec<Entry>, depth: usize) -> (r: Vec<Option<usize>>)
    ensures
        r@.len() == es@.len(),
        forall|i: int| 0 <= i < es@.len() ==> match #[trigger] r@[i] {
            Some(n) => nth(entries_view(es@), depth as nat, i) == Some(n as nat),
            None => nth(entries_view(es@), depth as nat, i) is None,
        },
{
    let ghost ev = entries_view(es@);
    let mut r: Vec<Option<usize>> = Vec::new();
    let mut seen: usize = 0;
    let mut i: usize = 0;
    while i < es.len()
        invariant
            ev == entries_view(es@),
            i <= es@.len(),
            r@.len() == i,
            seen == seen_before(ev, depth as nat, i as int),
            seen <= i,
            forall|j: int| 0 <= j < i ==> match #[trigger] r@[j] {
                Some(n) => nth(ev, depth as nat, j) == Some(n as nat),
                None => nth(ev, depth as nat, j) is None,
            },
        decreases es@.len() - i,
    {
        let d = es[i].depth;
        proof {
            assert(ev[i as int].depth == d);
        }
        if d > depth && d - 1 == depth {
            r.push(Some(seen));
        } else {
            r.push(None);
        }
        if d <= depth {
            seen = 0;
        } else if d - 1 == depth {
            seen += 1;
        }
        i += 1;
    }
    r
}

fn below_exec(es: &Vec<Entry>, nums: &Vec<Option<usize>>, depth: usize, k: u128) -> (n: usize)
    requires
        nums@.len() == es@.len(),
        forall|i: int| 0 <= i < es@.len() ==> match #[trigger] nums@[i] {
            Some(m) => nth(entries_view(es@), depth as nat, i) == Some(m as nat),
            None => nth(entries_view(es@), depth as nat, i) is None,
        },
    ensures
        n == below(entries_view(es@), depth as nat, k as nat, es@.len() as int),
        n <= es@.len(),
{
    let ghost ev = entries_view(es@);
    let mut n: usize = 0;
    let mut i: usize = 0;
    while i < nums.len()
        invariant
            ev == entries_view(es@),
            nums@.len() == es@.len(),
            forall|i: int| 0 <= i < es@.len() ==> match #[trigger] nums@[i] {
                Some(m) => nth(ev, depth as nat, i) == Some(m as nat),
                None => nth(ev, depth as nat, i) is None,
            },
            i <= nums@.len(),
            n <= i,
            n == below(ev, depth as nat, k as nat, i as int),
        decreases nums@.len() - i,
    {
        let hit = match nums[i] {
            Some(m) => (m as u128) < k,
            None => false,
        };
        proof {
            let _ = nums@[i as int];
        }
        if hit {
            n += 1;
        }
        i += 1;
    }
    n
}

/// At most `max` entries, in file order: every level that fits whole,
/// then the first entries of the next level under each parent, so a long
/// plan shows its phases and a few tasks of each rather than the first
/// eighty tasks.
pub fn pick(entries: &Vec<Entry>, max: usize) -> (r: Vec<Entry>)
    ensures
        entries_view(r@) == pick_spec(entries_view(entries@), max as nat),
{
    let ghost ev = entries_view(entries@);
    let top = deepest_exec(entries);
    let mut d = top;
    while d >= 1 && upto_exec(entries, d) > max
        invariant
            ev == entries_view(entries@),
            d <= top,
            fit_depth(ev, max as nat, top as nat) == fit_depth(ev, max as nat, d as nat),
        decreases d,
    {
        d -= 1;
    }
    let mut out: Vec<Entry> = Vec::new();
    if d == 0 {
        let n = if max < entries.len() {
            max
        } else {
            entries.len()
        };
        let mut i: usize = 0;
        while i < n
            invariant
                ev == entries_view(entries@),
                n <= entries@.len(),
                i <= n,
                entries_view(out@) =~= ev.take(i as int),
            decreases n - i,
        {
            let e = entries[i].copy();
            let ghost before = out@;
            out.push(e);
            proof {
                assert(entries_view(out@) =~= entries_view(before).push(e.view()));
                assert(ev.take(i + 1) =~= ev.take(i as int).push(ev[i as int]));
            }
            i += 1;
        }
        return out;
    }
    let depth = d;
    let nums = numbers(entries, depth);
    let upto_depth = upto_exec(entries, depth);
    let mut k: usize = 0;
    let mut going = depth < top;
    let count = entries.len();
    while going
        invariant
            ev == entries_view(entries@),
            count == entries@.len(),
            nums@.len() == entries@.len(),
            forall|i: int| 0 <= i < entries@.len() ==> match #[trigger] nums@[i] {
                Some(m) => nth(ev, depth as nat, i) == Some(m as nat),
                None => nth(ev, depth as nat, i) is None,
            },
            upto_depth == upto(ev, depth as nat),
            k <= entries@.len(),
            going ==> depth < top,
            children(ev, depth as nat, top as nat, max as nat, 0) == if going {
                children(ev, depth as nat, top as nat, max as nat, k as nat)
            } else {
                k as nat
            },
        decreases entries@.len() - k + if going {
            1int
        } else {
            0int
        },
    {
        let a = below_exec(entries, &nums, depth, k as u128);
        let b = below_exec(entries, &nums, depth, (k as u128) + 1);
        let with_a = (upto_depth as u128) + (a as u128);
        let with_b = (upto_depth as u128) + (b as u128);
        proof {
            lemma_below_step(ev, depth as nat, k as nat, ev.len() as int);
        }
        if with_b <= max as u128 && with_b > with_a {
            proof {
                assert((k as u128 + 1) as nat == k as nat + 1);
                assert(b > a);
                assert(k < count);
            }
            k += 1;
        } else {
            going = false;
        }
    }
    let mut i: usize = 0;
    while i < entries.len()
        invariant
            ev == entries_view(entries@),
            nums@.len() == entries@.len(),
            forall|i: int| 0 <= i < entries@.len() ==> match #[trigger] nums@[i] {
                Some(m) => nth(ev, depth as nat, i) == Some(m as nat),
                None => nth(ev, depth as nat, i) is None,
            },
            i <= entries@.len(),
            entries_view(out@) == keep(ev, depth as nat, k as nat, i as int),
        decreases entries@.len() - i,
    {
        let e = &entries[i];
        let numbered = match nums[i] {
            Some(m) => m < k,
            None => false,
        };
        proof {
            let _ = nums@[i as int];
            assert(ev[i as int] == e.view());
        }
        if e.depth <= depth || numbered {
            let ghost before = out@;
            out.push(e.copy());
            proof {
                assert(entries_view(out@) =~= entries_view(before).push(e.view()));
            }
        }
        i += 1;
    }
    out
}

// ---------------------------------------------------------------------------
// Rendering
// ---------------------------------------------------------------------------

pub open spec fn min_depth(es: Seq<EntryV>) -> nat
    decreases es.len(),
{
    if es.len() == 0 {
        1
    } else if es.len() == 1 {
        es[0].depth
    } else {
        let m = min_depth(es.drop_last());
        if es.last().depth < m {
            es.last().depth
        } else {
            m
        }
    }
}

pub open spec fn spaces(n: nat) -> Seq<char> {
    Seq::new(n, |i: int| ' ')
}

/// `s` padded with spaces to 13 characters, as `{:<13}` does.
pub open spec fn pad13(s: Seq<char>) -> Seq<char> {
    if s.len() < 13 {
        s + spaces((13 - s.len()) as nat)
    } else {
        s
    }
}

pub open spec fn range_label(e: EntryV) -> Seq<char> {
    "L"@ + crate::fmt::dec(e.start) + "-"@ + crate::fmt::dec(e.end)
}

pub open spec fn entry_line(e: EntryV, min: nat) -> Seq<char> {
    pad13(range_label(e)) + spaces((2 * (e.depth - min)) as nat) + e.title + "\n"@
}

pub open spec fn entry_lines(es: Seq<EntryV>, min: nat) -> Seq<char>
    decreases es.len(),
{
    if es.len() == 0 {
        seq![]
    } else {
        entry_lines(es.drop_last(), min) + entry_line(es.last(), min)
    }
}

pub open spec fn hidden_line(n: nat) -> Seq<char> {
    "… "@ + crate::fmt::dec(n) + " more entries, deeper or later; Grep for a word to find them\n"@
}

/// The picked entries, one per line with its range, and how many were
/// left out.
pub open spec fn render_spec(es: Seq<EntryV>, max: nat) -> Seq<char> {
    let shown = pick_spec(es, max);
    let hidden = es.len() - shown.len();
    entry_lines(shown, min_depth(shown)) + if hidden > 0 {
        hidden_line(hidden as nat)
    } else {
        seq![]
    }
}

proof fn lemma_min_depth(es: Seq<EntryV>)
    ensures
        forall|i: int| 0 <= i < es.len() ==> min_depth(es) <= #[trigger] es[i].depth,
    decreases es.len(),
{
    if es.len() > 1 {
        lemma_min_depth(es.drop_last());
        assert forall|i: int| 0 <= i < es.len() implies min_depth(es) <= #[trigger] es[i].depth by {
            if i < es.len() - 1 {
                assert(es[i] == es.drop_last()[i]);
            }
        }
    }
}

fn push_spaces(v: &mut Vec<char>, n: usize)
    ensures
        final(v)@ == old(v)@ + spaces(n as nat),
{
    let ghost start = v@;
    let mut i: usize = 0;
    while i < n
        invariant
            i <= n,
            v@ =~= start + spaces(i as nat),
        decreases n - i,
    {
        v.push(' ');
        i += 1;
    }
}

fn min_depth_exec(es: &Vec<Entry>) -> (m: usize)
    ensures
        m == min_depth(entries_view(es@)),
{
    let ghost ev = entries_view(es@);
    if es.len() == 0 {
        return 1;
    }
    let mut m = es[0].depth;
    let mut i: usize = 1;
    proof {
        assert(ev.take(1).len() == 1);
    }
    while i < es.len()
        invariant
            ev == entries_view(es@),
            1 <= i <= es@.len(),
            m == min_depth(ev.take(i as int)),
        decreases es@.len() - i,
    {
        proof {
            assert(ev.take(i + 1).drop_last() =~= ev.take(i as int));
        }
        if es[i].depth < m {
            m = es[i].depth;
        }
        i += 1;
    }
    proof {
        assert(ev.take(es@.len() as int) =~= ev);
    }
    m
}

fn push_entry_line(v: &mut Vec<char>, e: &Entry, min: usize)
    requires
        min <= e.depth,
    ensures
        final(v)@ == old(v)@ + entry_line(e.view(), min as nat),
{
    let mut label = chars_of("L");
    crate::fmt::push_dec(&mut label, e.start as u64);
    crate::fmt::push_text(&mut label, "-");
    crate::fmt::push_dec(&mut label, e.end as u64);
    let ghost l0 = label@;
    if label.len() < 13 {
        let pad = 13 - label.len();
        push_spaces(&mut label, pad);
    }
    let ghost start = v@;
    crate::fmt::push_all(v, &label);
    let ghost mid = v@;
    push_spaces(v, e.depth - min);
    push_spaces(v, e.depth - min);
    proof {
        assert(spaces((e.depth - min) as nat) + spaces((e.depth - min) as nat) =~= spaces((2 * (e.depth - min)) as nat));
        assert(v@ =~= mid + spaces((2 * (e.depth - min)) as nat));
    }
    crate::fmt::push_text(v, e.title.as_str());
    crate::fmt::push_text(v, "\n");
    proof {
        assert(l0 == range_label(e.view()));
        assert(label@ == pad13(range_label(e.view())));
        assert(v@ =~= start + entry_line(e.view(), min as nat));
    }
}

/// `pick`ed entries, one per line with its range, and how many were left
/// out.
pub fn render(entries: &Vec<Entry>, max: usize) -> (r: String)
    ensures
        r@ == render_spec(entries_view(entries@), max as nat),
{
    let shown = pick(entries, max);
    let ghost sv = entries_view(shown@);
    let min = min_depth_exec(&shown);
    proof {
        lemma_min_depth(sv);
        lemma_pick_len(entries_view(entries@), max as nat);
    }
    let mut out: Vec<char> = Vec::new();
    let mut i: usize = 0;
    while i < shown.len()
        invariant
            sv == entries_view(shown@),
            min == min_depth(sv),
            forall|j: int| 0 <= j < sv.len() ==> min_depth(sv) <= #[trigger] sv[j].depth,
            i <= shown@.len(),
            out@ == entry_lines(sv.take(i as int), min as nat),
        decreases shown@.len() - i,
    {
        proof {
            assert(sv.take(i + 1).drop_last() =~= sv.take(i as int));
            assert(sv[i as int] == shown@[i as int].view());
            assert(min <= sv[i as int].depth);
        }
        push_entry_line(&mut out, &shown[i], min);
        i += 1;
    }
    proof {
        assert(sv.take(shown@.len() as int) =~= sv);
    }
    let hidden = entries.len() - shown.len();
    if hidden > 0 {
        crate::fmt::push_text(&mut out, "… ");
        crate::fmt::push_dec(&mut out, hidden as u64);
        crate::fmt::push_text(&mut out, " more entries, deeper or later; Grep for a word to find them\n");
    }
    string_of(&out)
}

} // verus!
