//! `relay brief <query>`: one page for one task, so an agent stops
//! reading whole plan docs to find it. The sections of the repo's
//! Markdown docs whose heading names the query (`T-253` finds its entry,
//! not `T-2530`), the remembered items that mention it, and the files it
//! will likely touch. Deterministic, no model, bounded.
//!
//! Listing the repo's docs and reading them is the caller's; what to show
//! of them is decided here.

use vstd::prelude::*;

use crate::fmt::{cut_lines, cut_lines_spec, dec, push_all, push_dec, push_text, truncate_chars, truncate_spec};
use crate::likely::{likely_line, Likely};
use crate::limits::{TASK_MAX_CHARS, TASK_MIN_SECTION_CHARS, TASK_OTHER_MATCHES, TASK_SECTIONS, TASK_SECTION_CHARS};
use crate::outline::{entries_view, Entry, EntryV};
use crate::text::{
    alphanumeric, byte_len, chars_of, copy_chars, find_from, first_at_or_after, is_alnum, join, join_spec, lines,
    lines_of, lowercase, occurs_at, slice, split_whitespace, string_of, to_lowercase, trim_end, trim_end_spec,
    utf8_len, words_of,
};

verus! {

// ---------------------------------------------------------------------------
// Whole-token matches
// ---------------------------------------------------------------------------

/// `w` at `i` stands alone: no letter or digit touches it on either side.
pub open spec fn bounded(h: Seq<char>, w: Seq<char>, i: int) -> bool {
    &&& (i == 0 || !is_alnum(h[i - 1]))
    &&& (i + w.len() >= h.len() || !is_alnum(h[i + w.len()]))
}

/// How far a search moves past a match of `w`.
pub open spec fn step(w: Seq<char>) -> nat {
    if w.len() == 0 {
        1
    } else {
        w.len()
    }
}

/// Whether one of the matches of `w` in `h` from `p` on, taken left to
/// right without overlapping (as `str::match_indices` gives them), stands
/// alone.
pub open spec fn found_from(h: Seq<char>, w: Seq<char>, p: int) -> bool
    decreases h.len() + 1 - p,
{
    if p < 0 || p > h.len() {
        false
    } else if occurs_at(h, w, p) {
        bounded(h, w, p) || found_from(h, w, p + step(w))
    } else {
        found_from(h, w, p + 1)
    }
}

/// Whether `hay` mentions every word of `query`, case-insensitively and
/// as whole tokens: `T-25` is not in `T-253`.
pub open spec fn mentions_spec(hay: Seq<char>, query: Seq<char>) -> bool {
    let ws = words_of(query);
    forall|k: int| 0 <= k < ws.len() ==> found_from(lowercase(hay), lowercase(#[trigger] ws[k]), 0)
}

proof fn lemma_found_skip(h: Seq<char>, w: Seq<char>, p: int, i: int)
    requires
        0 <= p <= i,
        forall|j: int| p <= j < i ==> !occurs_at(h, w, j),
        i <= h.len() + 1,
    ensures
        found_from(h, w, p) == found_from(h, w, i),
    decreases i - p,
{
    if p < i {
        assert(!occurs_at(h, w, p));
        lemma_found_skip(h, w, p + 1, i);
    }
}

proof fn lemma_found_none(h: Seq<char>, w: Seq<char>, p: int)
    requires
        0 <= p,
        forall|j: int| p <= j ==> !occurs_at(h, w, j),
    ensures
        !found_from(h, w, p),
    decreases h.len() + 1 - p,
{
    if p <= h.len() {
        assert(!occurs_at(h, w, p));
        lemma_found_none(h, w, p + 1);
    }
}

fn bounded_exec(h: &[char], w: &[char], i: usize) -> (r: bool)
    requires
        i + w@.len() <= h@.len(),
    ensures
        r == bounded(h@, w@, i as int),
{
    let before_ok = i == 0 || !alphanumeric(h[i - 1]);
    let after_ok = i + w.len() >= h.len() || !alphanumeric(h[i + w.len()]);
    before_ok && after_ok
}

fn found_exec(h: &[char], w: &[char]) -> (r: bool)
    ensures
        r == found_from(h@, w@, 0),
{
    let mut p: usize = 0;
    loop
        invariant
            p <= h@.len() + 1,
            found_from(h@, w@, p as int) == found_from(h@, w@, 0),
        decreases h@.len() + 1 - p,
    {
        if p > h.len() {
            return false;
        }
        match find_from(h, w, p) {
            None => {
                proof {
                    lemma_found_none(h@, w@, p as int);
                }
                return false;
            },
            Some(i) => {
                proof {
                    lemma_found_skip(h@, w@, p as int, i as int);
                }
                if bounded_exec(h, w, i) {
                    return true;
                }
                if w.len() == 0 {
                    if i >= h.len() {
                        proof {
                            assert(!found_from(h@, w@, i + 1));
                        }
                        return false;
                    }
                    p = i + 1;
                } else {
                    p = i + w.len();
                }
            },
        }
    }
}

/// Whether `hay` mentions every word of `query`, case-insensitively and
/// as whole tokens: `T-25` is not in `T-253`.
pub fn mentions(hay: &str, query: &str) -> (r: bool)
    ensures
        r == mentions_spec(hay@, query@),
{
    let h = chars_of(to_lowercase(hay).as_str());
    let ws = split_whitespace(&chars_of(query));
    let ghost wv = ws.deep_view();
    let mut k: usize = 0;
    while k < ws.len()
        invariant
            wv == ws.deep_view(),
            wv == words_of(query@),
            h@ == lowercase(hay@),
            k <= ws@.len(),
            forall|j: int| 0 <= j < k ==> found_from(lowercase(hay@), lowercase(#[trigger] wv[j]), 0),
        decreases ws@.len() - k,
    {
        let s = string_of(&ws[k]);
        let lw = chars_of(to_lowercase(s.as_str()).as_str());
        proof {
            assert(wv[k as int] == s@);
        }
        if !found_exec(&h, &lw) {
            return false;
        }
        k += 1;
    }
    true
}

// ---------------------------------------------------------------------------
// Sections
// ---------------------------------------------------------------------------

/// A section of a doc that matched, and how well.
pub struct Hit {
    pub file: String,
    pub entry: Entry,
    pub body: String,
    /// The heading starts with the query (0), names it (1), or only the
    /// body does (2): `### T-253 · …` is the task, `### T-241 · … T-253`
    /// depends on it.
    pub rank: u8,
}

#[verifier::ext_equal]
pub struct HitV {
    pub file: Seq<char>,
    pub entry: EntryV,
    pub body: Seq<char>,
    pub rank: nat,
}

impl Hit {
    pub open spec fn view(&self) -> HitV {
        HitV { file: self.file@, entry: self.entry.view(), body: self.body@, rank: self.rank as nat }
    }

    pub fn copy(&self) -> (h: Hit)
        ensures
            h.view() == self.view(),
    {
        Hit { file: self.file.clone(), entry: self.entry.copy(), body: self.body.clone(), rank: self.rank }
    }
}

pub open spec fn hits_view(v: Seq<Hit>) -> Seq<HitV> {
    v.map_values(|h: Hit| h.view())
}

/// The first line of `ls` at or after `from` that is not empty.
pub open spec fn first_nonempty(ls: Seq<Seq<char>>, from: int) -> Option<Seq<char>>
    decreases ls.len() - from,
{
    if from < 0 || from >= ls.len() {
        None
    } else if ls[from].len() > 0 {
        Some(ls[from])
    } else {
        first_nonempty(ls, from + 1)
    }
}

/// Whole lines of `text` that fit in `max` bytes, the line that does not
/// fit cut short, and whether anything was left out. Plan entries are
/// often one long line each.
pub open spec fn fit_spec(text: Seq<char>, max: nat) -> (Seq<char>, bool) {
    let (head, cut) = cut_lines_spec(text, max);
    if !cut {
        (head, false)
    } else {
        let room: nat = if utf8_len(head) + 1 <= max {
            (max - (utf8_len(head) + 1)) as nat
        } else {
            0
        };
        let taken = lines_of(head).len();
        match first_nonempty(lines_of(text), taken as int) {
            Some(next) => if room > 80 {
                (trim_end_spec(head) + "\n"@ + truncate_spec(next, room * 9 / 10), true)
            } else {
                (head, true)
            },
            None => (head, true),
        }
    }
}

fn first_nonempty_from(ls: &Vec<Vec<char>>, from: usize) -> (r: Option<Vec<char>>)
    ensures
        match r {
            Some(l) => first_nonempty(ls.deep_view(), from as int) == Some(l@),
            None => first_nonempty(ls.deep_view(), from as int) is None,
        },
{
    let ghost lv = ls.deep_view();
    let mut i = from;
    while i < ls.len()
        invariant
            lv == ls.deep_view(),
            from <= i,
            first_nonempty(lv, i as int) == first_nonempty(lv, from as int),
        decreases ls@.len() - i,
    {
        proof {
            assert(lv[i as int] == ls@[i as int]@);
        }
        if ls[i].len() > 0 {
            return Some(copy_chars(&ls[i]));
        }
        i += 1;
    }
    None
}

fn fit(text: &[char], max: usize) -> (r: (Vec<char>, bool))
    requires
        max * 9 <= usize::MAX,
    ensures
        (r.0@, r.1) == fit_spec(text@, max as nat),
{
    let (head, cut) = cut_lines(text, max);
    if !cut {
        return (head, false);
    }
    let hb = byte_len(&head);
    let room: usize = if hb < max as u128 {
        max - (hb as usize + 1)
    } else {
        0
    };
    let taken = lines(&head).len();
    let tl = lines(text);
    match first_nonempty_from(&tl, taken) {
        Some(next) => {
            if room > 80 {
                let mut out = trim_end(&head);
                out.push('\n');
                let t = truncate_chars(&next, room * 9 / 10);
                push_all(&mut out, &t);
                proof {
                    reveal_strlit("\n");
                    assert(out@ =~= trim_end_spec(head@) + "\n"@ + truncate_spec(next@, (room * 9 / 10) as nat));
                }
                (out, true)
            } else {
                (head, true)
            }
        },
        None => (head, true),
    }
}

/// One matching section under its file and range, cut to `room` with the
/// range of the rest.
pub open spec fn section_spec(h: HitV, room: nat) -> Seq<char> {
    let (text, cut) = fit_spec(h.body, room);
    "\n## "@ + h.file + " L"@ + dec(h.entry.start) + "-"@ + dec(h.entry.end) + "\n"@ + (if !cut {
        text
    } else {
        trim_end_spec(text) + "\n… cut; the rest is Read offset "@ + dec(h.entry.start) + " limit "@ + dec(
            (h.entry.end + 1 - h.entry.start) as nat,
        )
    }) + "\n"@
}

fn section(h: &Hit, room: usize) -> (r: Vec<char>)
    requires
        room * 9 <= usize::MAX,
        h.entry.start <= h.entry.end + 1,
        h.entry.end < usize::MAX,
    ensures
        r@ == section_spec(h.view(), room as nat),
{
    let mut out = chars_of("\n## ");
    push_text(&mut out, h.file.as_str());
    push_text(&mut out, " L");
    push_dec(&mut out, h.entry.start as u64);
    push_text(&mut out, "-");
    push_dec(&mut out, h.entry.end as u64);
    push_text(&mut out, "\n");
    let (text, cut) = fit(&chars_of(h.body.as_str()), room);
    if !cut {
        push_all(&mut out, &text);
    } else {
        let t = trim_end(&text);
        push_all(&mut out, &t);
        push_text(&mut out, "\n… cut; the rest is Read offset ");
        push_dec(&mut out, h.entry.start as u64);
        push_text(&mut out, " limit ");
        let span = (h.entry.end + 1) - h.entry.start;
        push_dec(&mut out, span as u64);
    }
    push_text(&mut out, "\n");
    out
}

/// A section the page has no room for, named by its file and range.
pub open spec fn hit_ref(h: HitV) -> Seq<char> {
    h.file + " L"@ + dec(h.entry.start) + "-"@ + dec(h.entry.end)
}

/// Room for the next section on a page that has `used` bytes.
pub open spec fn room_for(used: nat) -> nat {
    let left: nat = if used + 800 <= TASK_MAX_CHARS {
        (TASK_MAX_CHARS - (used + 800)) as nat
    } else {
        0
    };
    if left < TASK_SECTION_CHARS {
        left
    } else {
        TASK_SECTION_CHARS as nat
    }
}

/// The page after the first `n` hits: its text, the sections printed and
/// the ones only named.
pub open spec fn pour(head: Seq<char>, hits: Seq<HitV>, n: int) -> (Seq<char>, nat, Seq<Seq<char>>)
    decreases n,
{
    if n <= 0 {
        (head, 0, seq![])
    } else {
        let (out, printed, more) = pour(head, hits, n - 1);
        let h = hits[n - 1];
        let room = room_for(utf8_len(out));
        if printed == TASK_SECTIONS || room < TASK_MIN_SECTION_CHARS {
            (out, printed, if more.len() < TASK_OTHER_MATCHES {
                more.push(hit_ref(h))
            } else {
                more
            })
        } else {
            (out + section_spec(h, room), printed + 1, more)
        }
    }
}

pub open spec fn file_lines(fs: Seq<Seq<char>>) -> Seq<char>
    decreases fs.len(),
{
    if fs.len() == 0 {
        seq![]
    } else {
        file_lines(fs.drop_last()) + "- "@ + fs.last() + "\n"@
    }
}

/// The page: the sections that fit, the others named, the remembered
/// items and the likely files.
pub open spec fn compose_spec(
    query: Seq<char>,
    hits: Seq<HitV>,
    items: Seq<Seq<char>>,
    files: Seq<Seq<char>>,
) -> Seq<char> {
    let head = "# relay brief: "@ + query + "\n"@;
    if hits.len() == 0 && items.len() == 0 && files.len() == 0 {
        head + "Nothing in the docs, memory or recent sessions names it. Try another id or fewer words.\n"@
    } else {
        let (out, _, more) = pour(head, hits, hits.len() as int);
        out + (if more.len() > 0 {
            "\nAlso named in: "@ + join_spec(more, ", "@) + "\n"@
        } else {
            seq![]
        }) + (if items.len() > 0 {
            "\n## Remembered\n"@ + join_spec(items, "\n"@) + "\n"@
        } else {
            seq![]
        }) + (if files.len() > 0 {
            "\n## Likely files\n"@ + file_lines(files)
        } else {
            seq![]
        })
    }
}

pub open spec fn sane(hits: Seq<HitV>) -> bool {
    forall|i: int|
        0 <= i < hits.len() ==> (#[trigger] hits[i]).entry.start <= hits[i].entry.end + 1 && hits[i].entry.end
            < usize::MAX
}

pub open spec fn likely_lines(fs: Seq<Likely>) -> Seq<Seq<char>> {
    fs.map_values(|f: Likely| likely_line(f.view()))
}

fn strs_chars(v: &[String]) -> (r: Vec<Vec<char>>)
    ensures
        r.deep_view() == v@.map_values(|s: String| s@),
{
    let mut r: Vec<Vec<char>> = Vec::new();
    let mut i: usize = 0;
    while i < v.len()
        invariant
            i <= v@.len(),
            r.deep_view() =~= v@.map_values(|s: String| s@).take(i as int),
        decreases v@.len() - i,
    {
        let c = chars_of(v[i].as_str());
        let ghost before = r.deep_view();
        r.push(c);
        proof {
            assert(c.deep_view() =~= c@);
            assert(r.deep_view() =~= before.push(c@));
        }
        i += 1;
    }
    proof {
        assert(v@.map_values(|s: String| s@).take(v@.len() as int) =~= v@.map_values(|s: String| s@));
    }
    r
}

fn hit_ref_exec(h: &Hit) -> (r: Vec<char>)
    ensures
        r@ == hit_ref(h.view()),
{
    let mut v = chars_of(h.file.as_str());
    push_text(&mut v, " L");
    push_dec(&mut v, h.entry.start as u64);
    push_text(&mut v, "-");
    push_dec(&mut v, h.entry.end as u64);
    v
}

fn room_exec(used: u128) -> (r: usize)
    ensures
        r == room_for(used as nat),
        r <= TASK_SECTION_CHARS,
{
    let left: usize = if used <= (TASK_MAX_CHARS - 800) as u128 {
        TASK_MAX_CHARS - (used as usize + 800)
    } else {
        0
    };
    if left < TASK_SECTION_CHARS {
        left
    } else {
        TASK_SECTION_CHARS
    }
}

/// The page for `query` from the matching sections (best first), the
/// remembered items that mention it (one line each) and the files it will
/// likely touch.
pub fn compose(query: &str, hits: &[Hit], items: &[String], files: &[Likely]) -> (r: String)
    requires
        sane(hits_view(hits@)),
    ensures
        r@ == compose_spec(
            query@,
            hits_view(hits@),
            items@.map_values(|s: String| s@),
            likely_lines(files@),
        ),
{
    let ghost hv = hits_view(hits@);
    let mut out = chars_of("# relay brief: ");
    push_text(&mut out, query);
    push_text(&mut out, "\n");
    let ghost head = out@;
    if hits.len() == 0 && items.len() == 0 && files.len() == 0 {
        push_text(&mut out, "Nothing in the docs, memory or recent sessions names it. Try another id or fewer words.\n");
        return string_of(&out);
    }
    let mut printed: usize = 0;
    let mut more: Vec<Vec<char>> = Vec::new();
    let mut i: usize = 0;
    proof {
        assert(more.deep_view() =~= Seq::<Seq<char>>::empty());
    }
    while i < hits.len()
        invariant
            hv == hits_view(hits@),
            sane(hv),
            i <= hits@.len(),
            (out@, printed as nat, more.deep_view()) == pour(head, hv, i as int),
            printed <= i,
        decreases hits@.len() - i,
    {
        let h = &hits[i];
        proof {
            assert(hv[i as int] == h.view());
        }
        let used = byte_len(&out);
        let room = room_exec(used);
        if printed == TASK_SECTIONS || room < TASK_MIN_SECTION_CHARS {
            if more.len() < TASK_OTHER_MATCHES {
                let r = hit_ref_exec(h);
                let ghost before = more.deep_view();
                more.push(r);
                proof {
                    assert(r.deep_view() =~= r@);
                    assert(more.deep_view() =~= before.push(r@));
                }
            }
        } else {
            printed += 1;
            let s = section(h, room);
            push_all(&mut out, &s);
        }
        i += 1;
    }
    let ghost poured = out@;
    let mut tail: Vec<char> = Vec::new();
    if more.len() > 0 {
        push_text(&mut tail, "\nAlso named in: ");
        let j = join(&more, &chars_of(", "));
        push_all(&mut tail, &j);
        push_text(&mut tail, "\n");
    }
    let ghost t1 = tail@;
    let mut t2: Vec<char> = Vec::new();
    if items.len() > 0 {
        push_text(&mut t2, "\n## Remembered\n");
        let ic = strs_chars(items);
        let j = join(&ic, &chars_of("\n"));
        push_all(&mut t2, &j);
        push_text(&mut t2, "\n");
    }
    let mut t3: Vec<char> = Vec::new();
    if files.len() > 0 {
        push_text(&mut t3, "\n## Likely files\n");
        let ghost start = t3@;
        let ghost fl = likely_lines(files@);
        let mut k: usize = 0;
        proof {
            assert(fl.take(0) =~= Seq::<Seq<char>>::empty());
            assert(t3@ =~= start + file_lines(fl.take(0)));
        }
        while k < files.len()
            invariant
                fl == likely_lines(files@),
                k <= files@.len(),
                t3@ == start + file_lines(fl.take(k as int)),
            decreases files@.len() - k,
        {
            proof {
                assert(fl.take(k + 1).drop_last() =~= fl.take(k as int));
                assert(fl.take(k + 1).last() == likely_line(files@[k as int].view()));
            }
            push_text(&mut t3, "- ");
            let l = files[k].line();
            push_text(&mut t3, l.as_str());
            push_text(&mut t3, "\n");
            k += 1;
        }
        proof {
            assert(fl.take(files@.len() as int) =~= fl);
        }
    }
    push_all(&mut out, &tail);
    push_all(&mut out, &t2);
    push_all(&mut out, &t3);
    proof {
        if more@.len() == 0 {
            assert(t1 =~= Seq::<char>::empty());
        }
        if items@.len() == 0 {
            assert(t2@ =~= Seq::<char>::empty());
        }
        if files@.len() == 0 {
            assert(t3@ =~= Seq::<char>::empty());
        }
        assert(out@ =~= compose_spec(
            query@,
            hv,
            items@.map_values(|s: String| s@),
            likely_lines(files@),
        ));
    }
    string_of(&out)
}


// ---------------------------------------------------------------------------
// Finding the sections of a doc
// ---------------------------------------------------------------------------

/// `t` past any leading characters that are not letters or digits.
pub open spec fn skip_marks(t: Seq<char>) -> Seq<char>
    decreases t.len(),
{
    if t.len() > 0 && !is_alnum(t[0]) {
        skip_marks(t.drop_first())
    } else {
        t
    }
}

pub open spec fn first_word(s: Seq<char>) -> Seq<char> {
    let ws = words_of(s);
    if ws.len() > 0 {
        ws[0]
    } else {
        seq![]
    }
}

/// Whether the first word of `title`, past any list or number marks, is
/// the query's first word.
pub open spec fn leads_spec(title: Seq<char>, query: Seq<char>) -> bool {
    mentions_spec(first_word(skip_marks(title)), first_word(query))
}

fn first_word_exec(s: &[char]) -> (r: String)
    ensures
        r@ == first_word(s@),
{
    let ws = split_whitespace(s);
    if ws.len() > 0 {
        proof {
            assert(ws.deep_view()[0] == ws@[0]@);
        }
        string_of(&ws[0])
    } else {
        String::new()
    }
}

fn leads_with(title: &str, query: &str) -> (r: bool)
    ensures
        r == leads_spec(title@, query@),
{
    let t = chars_of(title);
    let mut i: usize = 0;
    proof {
        assert(t@.skip(0) =~= t@);
    }
    while i < t.len() && !alphanumeric(t[i])
        invariant
            i <= t@.len(),
            skip_marks(t@.skip(i as int)) == skip_marks(t@),
        decreases t@.len() - i,
    {
        proof {
            assert(t@.skip(i as int)[0] == t@[i as int]);
            assert(t@.skip(i as int).drop_first() =~= t@.skip(i + 1));
        }
        i += 1;
    }
    let rest = slice(&t, i, t.len());
    proof {
        assert(rest@ =~= t@.skip(i as int));
        if i < t@.len() {
            assert(rest@[0] == t@[i as int]);
        } else {
            assert(rest@.len() == 0);
        }
        assert(skip_marks(rest@) == rest@);
    }
    let a = first_word_exec(&rest);
    let b = first_word_exec(&chars_of(query));
    mentions(a.as_str(), b.as_str())
}

pub open spec fn end_in(e: EntryV, n: nat) -> nat {
    if e.end < n {
        e.end
    } else {
        n
    }
}

/// The lines of a section, joined.
pub open spec fn body_of(ls: Seq<Seq<char>>, e: EntryV) -> Seq<char> {
    join_spec(ls.subrange(e.start - 1, end_in(e, ls.len()) as int), "\n"@)
}

pub open spec fn hit_at(rel: Seq<char>, ls: Seq<Seq<char>>, e: EntryV, rank: nat) -> HitV {
    HitV { file: rel, entry: e, body: body_of(ls, e), rank }
}

/// The first `n` entries whose title names the query, ranked 0 when the
/// title starts with it and 1 otherwise.
pub open spec fn title_hits(rel: Seq<char>, es: Seq<EntryV>, ls: Seq<Seq<char>>, query: Seq<char>, n: int) -> Seq<
    HitV,
>
    decreases n,
{
    if n <= 0 {
        seq![]
    } else {
        let rest = title_hits(rel, es, ls, query, n - 1);
        let e = es[n - 1];
        if mentions_spec(e.title, query) {
            rest.push(
                hit_at(
                    rel,
                    ls,
                    e,
                    if leads_spec(e.title, query) {
                        0
                    } else {
                        1
                    },
                ),
            )
        } else {
            rest
        }
    }
}

/// Line `line` lies in one of the sections found.
pub open spec fn inside(line: int, hs: Seq<HitV>) -> bool {
    exists|k: int| 0 <= k < hs.len() && (#[trigger] hs[k]).entry.start <= line <= hs[k].entry.end
}

/// Among the first `n` entries, the deepest around `line` (the last of
/// equals), or -1.
pub open spec fn around(es: Seq<EntryV>, line: int, n: int) -> int
    decreases n,
{
    if n <= 0 {
        -1
    } else {
        let b = around(es, line, n - 1);
        let e = es[n - 1];
        if e.start <= line <= e.end && (b < 0 || e.depth >= es[b].depth) {
            n - 1
        } else {
            b
        }
    }
}

/// The hits after the first `k` lines: the sections named by their
/// title, then the deepest section around each later line that names the
/// query, once each, outside the sections already found.
pub open spec fn line_hits(
    rel: Seq<char>,
    es: Seq<EntryV>,
    ls: Seq<Seq<char>>,
    query: Seq<char>,
    k: int,
) -> Seq<HitV>
    decreases k,
{
    if k <= 0 {
        title_hits(rel, es, ls, query, es.len() as int)
    } else {
        let prev = line_hits(rel, es, ls, query, k - 1);
        let line = k;
        if mentions_spec(ls[k - 1], query) && !inside(line, prev) {
            let d = around(es, line, es.len() as int);
            if d >= 0 {
                prev.push(hit_at(rel, ls, es[d], 2))
            } else {
                prev
            }
        } else {
            prev
        }
    }
}

pub open spec fn in_doc_spec(rel: Seq<char>, text: Seq<char>, es: Seq<EntryV>, query: Seq<char>) -> Seq<HitV> {
    let ls = lines_of(text);
    line_hits(rel, es, ls, query, ls.len() as int)
}

/// Every entry's lines lie in a doc of `n` lines.
pub open spec fn fits_doc(es: Seq<EntryV>, n: nat) -> bool {
    forall|i: int|
        0 <= i < es.len() ==> 1 <= (#[trigger] es[i]).start && es[i].start - 1 <= end_in(es[i], n)
}

proof fn lemma_around(es: Seq<EntryV>, line: int, n: int)
    requires
        n <= es.len(),
    ensures
        -1 <= around(es, line, n) < if n < 0 {
            0
        } else {
            n
        },
    decreases n,
{
    if n > 0 {
        lemma_around(es, line, n - 1);
    }
}

fn body_exec(ls: &Vec<Vec<char>>, e: &Entry) -> (r: String)
    requires
        1 <= e.start,
        e.start - 1 <= end_in(e.view(), ls@.len()),
    ensures
        r@ == body_of(ls.deep_view(), e.view()),
{
    let ghost lv = ls.deep_view();
    let a = e.start - 1;
    let b = if e.end < ls.len() {
        e.end
    } else {
        ls.len()
    };
    let mut parts: Vec<Vec<char>> = Vec::new();
    let mut i = a;
    while i < b
        invariant
            lv == ls.deep_view(),
            a <= i <= b,
            b <= ls@.len(),
            parts.deep_view() =~= lv.subrange(a as int, i as int),
        decreases b - i,
    {
        let c = copy_chars(&ls[i]);
        let ghost before = parts.deep_view();
        parts.push(c);
        proof {
            assert(c.deep_view() =~= c@);
            assert(lv[i as int] == ls@[i as int]@);
            assert(parts.deep_view() =~= before.push(c@));
        }
        i += 1;
    }
    let j = join(&parts, &chars_of("\n"));
    string_of(&j)
}

fn copy_entry(e: &Entry) -> (r: Entry)
    ensures
        r.view() == e.view(),
{
    e.copy()
}

fn inside_exec(line: usize, hs: &Vec<Hit>) -> (r: bool)
    ensures
        r == inside(line as int, hits_view(hs@)),
{
    let ghost hv = hits_view(hs@);
    let mut k: usize = 0;
    while k < hs.len()
        invariant
            hv == hits_view(hs@),
            k <= hs@.len(),
            forall|j: int| 0 <= j < k ==> !((#[trigger] hv[j]).entry.start <= line <= hv[j].entry.end),
        decreases hs@.len() - k,
    {
        proof {
            assert(hv[k as int] == hs@[k as int].view());
        }
        if hs[k].entry.start <= line && line <= hs[k].entry.end {
            return true;
        }
        k += 1;
    }
    false
}

fn around_exec(es: &[Entry], line: usize) -> (r: Option<usize>)
    ensures
        match r {
            Some(d) => around(entries_view(es@), line as int, es@.len() as int) == d as int,
            None => around(entries_view(es@), line as int, es@.len() as int) == -1,
        },
{
    let ghost ev = entries_view(es@);
    let mut best: Option<usize> = None;
    let mut i: usize = 0;
    while i < es.len()
        invariant
            ev == entries_view(es@),
            i <= es@.len(),
            match best {
                Some(d) => around(ev, line as int, i as int) == d as int && d < i,
                None => around(ev, line as int, i as int) == -1,
            },
        decreases es@.len() - i,
    {
        let e = &es[i];
        proof {
            assert(ev[i as int] == e.view());
            match best {
                Some(d) => {
                    assert(ev[d as int] == es@[d as int].view());
                },
                None => {},
            }
        }
        if e.start <= line && line <= e.end {
            let take = match best {
                Some(d) => e.depth >= es[d].depth,
                None => true,
            };
            if take {
                best = Some(i);
            }
        }
        i += 1;
    }
    best
}


// ---------------------------------------------------------------------------
// Hits of every doc, best first
// ---------------------------------------------------------------------------

/// `a` lists before `b`: a better rank, then a deeper section, then the
/// file's name.
pub open spec fn hit_before(a: HitV, b: HitV) -> bool {
    a.rank < b.rank || (a.rank == b.rank && (a.entry.depth > b.entry.depth || (a.entry.depth == b.entry.depth
        && crate::text::seq_lt(a.file, b.file))))
}

pub open spec fn hit_key(h: HitV) -> (nat, nat, Seq<char>) {
    (h.rank, h.entry.depth, h.file)
}

/// `o` lists `v` best first; hits that tie keep their order.
pub open spec fn hit_order(o: Seq<usize>, v: Seq<HitV>) -> bool {
    &&& crate::order::is_order(o, v.len())
    &&& forall|a: int, b: int| 0 <= a < b < o.len() ==> !hit_before(v[#[trigger] o[b] as int], v[#[trigger] o[a] as int])
    &&& forall|a: int, b: int|
        0 <= a < b < o.len() && hit_key(v[#[trigger] o[a] as int]) == hit_key(v[#[trigger] o[b] as int]) ==> o[a] < o[b]
}

proof fn lemma_hit_trans(x: HitV, y: HitV, z: HitV)
    requires
        hit_before(x, y),
        hit_before(y, z),
    ensures
        hit_before(x, z),
{
    if x.rank == y.rank && y.rank == z.rank && x.entry.depth == y.entry.depth && y.entry.depth == z.entry.depth {
        crate::order::lemma_seq_lt_trans(x.file, y.file, z.file);
    }
}

proof fn lemma_hit_irrefl(x: HitV)
    ensures
        !hit_before(x, x),
{
    crate::order::lemma_seq_lt_irrefl(x.file);
}

fn hit_before_exec(a: &Hit, b: &Hit) -> (r: bool)
    ensures
        r == hit_before(a.view(), b.view()),
{
    a.rank < b.rank || (a.rank == b.rank && (a.entry.depth > b.entry.depth || (a.entry.depth == b.entry.depth
        && crate::text::str_lt(a.file.as_str(), b.file.as_str()))))
}

/// The hits of every doc, best first: the heading that starts with the
/// query, then one that names it, then a section around a line that does;
/// deeper sections first; then by file.
pub fn best_first(hits: Vec<Hit>) -> (r: Vec<Hit>)
    ensures
        exists|o: Seq<usize>|
            #[trigger] hit_order(o, hits_view(hits@)) && hits_view(r@) == o.map_values(
                |k: usize| hits_view(hits@)[k as int],
            ),
{
    let ghost hv = hits_view(hits@);
    let mut r: Vec<usize> = Vec::new();
    let mut i: usize = 0;
    while i < hits.len()
        invariant
            hv == hits_view(hits@),
            i <= hits.len(),
            r@.len() == i,
            forall|a: int| 0 <= a < r@.len() ==> (#[trigger] r@[a]) < i,
            forall|j: usize| j < i ==> #[trigger] r@.contains(j),
            forall|a: int, b: int|
                0 <= a < b < r@.len() ==> !hit_before(hv[#[trigger] r@[b] as int], hv[#[trigger] r@[a] as int]),
            forall|a: int, b: int|
                0 <= a < b < r@.len() && hit_key(hv[#[trigger] r@[a] as int]) == hit_key(hv[#[trigger] r@[b] as int])
                    ==> r@[a] < r@[b],
        decreases hits.len() - i,
    {
        let h = &hits[i];
        let ghost kk = hv[i as int];
        let mut p: usize = 0;
        while p < r.len() && !hit_before_exec(h, &hits[r[p]])
            invariant
                hv == hits_view(hits@),
                p <= r@.len(),
                forall|a: int| 0 <= a < r@.len() ==> (#[trigger] r@[a]) < i,
                i < hits.len(),
                kk == hv[i as int],
                kk == h.view(),
                forall|a: int| 0 <= a < p ==> !hit_before(kk, hv[#[trigger] r@[a] as int]),
            decreases r@.len() - p,
        {
            p += 1;
        }
        let ghost before = r@;
        r.insert(p, i);
        proof {
            before.insert_ensures(p as int, i);
            assert forall|j: usize| j < i + 1 implies #[trigger] r@.contains(j) by {
                if j < i {
                    crate::order::lemma_insert_contains(before, p as int, i, j);
                } else {
                    crate::order::lemma_insert_contains(before, p as int, i, i);
                }
            }
            assert forall|a: int| 0 <= a < r@.len() implies (#[trigger] r@[a]) < i + 1 by {
                if a > p {
                    assert(r@[a] == before[a - 1]);
                }
            }
            assert forall|a: int, b: int| 0 <= a < b < r@.len() implies !hit_before(
                hv[#[trigger] r@[b] as int],
                hv[#[trigger] r@[a] as int],
            ) by {
                if b < p {
                } else if b == p {
                    assert(r@[a] == before[a]);
                } else if a < p {
                    assert(r@[b] == before[b - 1]);
                    assert(r@[a] == before[a]);
                } else if a == p {
                    assert(r@[b] == before[b - 1]);
                    let kp = hv[before[p as int] as int];
                    let kb = hv[before[b - 1] as int];
                    assert(hit_before(kk, kp));
                    if b - 1 > p {
                        assert(!hit_before(kb, kp));
                    }
                    if hit_before(kb, kk) {
                        lemma_hit_trans(kb, kk, kp);
                        lemma_hit_irrefl(kp);
                    }
                } else {
                    assert(r@[b] == before[b - 1]);
                    assert(r@[a] == before[a - 1]);
                }
            }
            assert forall|a: int, b: int|
                0 <= a < b < r@.len() && hit_key(hv[#[trigger] r@[a] as int]) == hit_key(hv[#[trigger] r@[b] as int])
                    implies r@[a] < r@[b] by {
                if b < p {
                } else if b == p {
                    assert(r@[a] == before[a]);
                } else if a < p {
                    assert(r@[b] == before[b - 1]);
                    assert(r@[a] == before[a]);
                } else if a == p {
                    assert(r@[b] == before[b - 1]);
                    let kp = hv[before[p as int] as int];
                    let kb = hv[before[b - 1] as int];
                    assert(hit_before(kk, kp));
                    if b - 1 > p {
                        assert(!hit_before(kb, kp));
                    } else {
                        lemma_hit_irrefl(kk);
                    }
                } else {
                    assert(r@[b] == before[b - 1]);
                    assert(r@[a] == before[a - 1]);
                }
            }
        }
        i += 1;
    }
    let ghost want = r@.map_values(|k: usize| hv[k as int]);
    let mut out: Vec<Hit> = Vec::new();
    let mut m: usize = 0;
    while m < r.len()
        invariant
            hv == hits_view(hits@),
            r@.len() == hits@.len(),
            forall|a: int| 0 <= a < r@.len() ==> (#[trigger] r@[a]) < hits@.len(),
            want == r@.map_values(|k: usize| hv[k as int]),
            m <= r@.len(),
            hits_view(out@) =~= want.take(m as int),
        decreases r@.len() - m,
    {
        let k = r[m];
        let c = hits[k].copy();
        let ghost before = hits_view(out@);
        out.push(c);
        proof {
            assert(hits_view(out@) =~= before.push(hv[k as int]));
            assert(want.take(m + 1) =~= want.take(m as int).push(hv[k as int]));
        }
        m += 1;
    }
    proof {
        assert(want.take(r@.len() as int) =~= want);
        assert(hit_order(r@, hv));
    }
    out
}

/// The sections of a doc that name `query`, best first: those whose
/// heading names it, then the deepest section around each other line
/// that does.
pub fn in_doc(rel: &str, text: &str, entries: &[Entry], query: &str) -> (r: Vec<Hit>)
    requires
        fits_doc(entries_view(entries@), lines_of(text@).len()),
    ensures
        hits_view(r@) == in_doc_spec(rel@, text@, entries_view(entries@), query@),
{
    let ls = lines(&chars_of(text));
    let ghost lv = ls.deep_view();
    let ghost ev = entries_view(entries@);
    let mut out: Vec<Hit> = Vec::new();
    let mut i: usize = 0;
    proof {
        assert(hits_view(out@) =~= Seq::<HitV>::empty());
    }
    while i < entries.len()
        invariant
            lv == ls.deep_view(),
            lv == lines_of(text@),
            ev == entries_view(entries@),
            fits_doc(ev, lv.len()),
            i <= entries@.len(),
            hits_view(out@) == title_hits(rel@, ev, lv, query@, i as int),
        decreases entries@.len() - i,
    {
        let e = &entries[i];
        proof {
            assert(ev[i as int] == e.view());
        }
        if mentions(e.title.as_str(), query) {
            let rank: u8 = if leads_with(e.title.as_str(), query) {
                0
            } else {
                1
            };
            let body = body_exec(&ls, e);
            let h = Hit { file: rel.to_string(), entry: copy_entry(e), body, rank };
            let ghost before = hits_view(out@);
            out.push(h);
            proof {
                assert(hits_view(out@) =~= before.push(h.view()));
            }
        }
        i += 1;
    }
    let mut k: usize = 0;
    while k < ls.len()
        invariant
            lv == ls.deep_view(),
            lv == lines_of(text@),
            ev == entries_view(entries@),
            fits_doc(ev, lv.len()),
            k <= ls@.len(),
            hits_view(out@) == line_hits(rel@, ev, lv, query@, k as int),
        decreases ls@.len() - k,
    {
        let line = k + 1;
        let l = string_of(&ls[k]);
        proof {
            assert(lv[k as int] == l@);
        }
        if mentions(l.as_str(), query) && !inside_exec(line, &out) {
            match around_exec(entries, line) {
                Some(d) => {
                    proof {
                        lemma_around(ev, line as int, ev.len() as int);
                    }
                    let e = &entries[d];
                    proof {
                        assert(ev[d as int] == e.view());
                    }
                    let body = body_exec(&ls, e);
                    let h = Hit { file: rel.to_string(), entry: copy_entry(e), body, rank: 2 };
                    let ghost before = hits_view(out@);
                    out.push(h);
                    proof {
                        assert(hits_view(out@) =~= before.push(h.view()));
                    }
                },
                None => {},
            }
        }
        k += 1;
    }
    out
}

} // verus!
