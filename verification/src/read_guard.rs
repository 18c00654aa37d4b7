//! Whole-file reads of big text files. A 345 KB plan doc is about 100k
//! tokens, and each of twenty subagents reading it whole pays that again;
//! most needed one section. Such a read is turned down with the file's
//! outline and the line ranges to read instead. Ranged reads always go
//! through, and the file on disk stays the original.
//!
//! Looking the file up and reading it is the caller's: it asks
//! `wants_outline` first, and hands the bytes to `guard`.

use vstd::prelude::*;

use crate::fmt::{dec, est_tokens, est_tokens_spec, human_bytes, human_bytes_spec, human_tokens, human_tokens_spec, push_all, push_dec, push_text};
use crate::limits::{GUARD_BYTES, OUTLINE_ENTRIES, OUTLINE_MAX_BYTES};
use crate::outline::{deepest, entries_view, is_markdown, is_markdown_spec, of, of_spec, pick, pick_spec, render, render_spec, Entry, EntryV};
use crate::text::{ascii_lower, chars_eq, chars_of, lines_of, string_of, trim_end, trim_end_spec};

verus! {

/// A read turned down, and what it would have cost.
#[derive(Debug, PartialEq, Eq)]
pub struct Guarded {
    /// What the agent reads instead.
    pub message: String,
    /// Estimated tokens of the whole file.
    pub file_tokens: usize,
}

/// Formats the harness renders from bytes rather than as text.
pub open spec fn not_text_spec(ext: Seq<char>) -> bool {
    let e = ascii_lower(ext);
    e == "png"@ || e == "jpg"@ || e == "jpeg"@ || e == "gif"@ || e == "webp"@ || e == "bmp"@ || e == "ico"@ || e
        == "tiff"@ || e == "svgz"@ || e == "pdf"@ || e == "ipynb"@ || e == "zip"@ || e == "gz"@ || e == "wasm"@
        || e == "mp3"@ || e == "mp4"@ || e == "wav"@
}

fn not_text(ext: &str) -> (r: bool)
    ensures
        r == not_text_spec(ext@),
{
    let e = crate::text::ascii_lower_exec(&chars_of(ext));
    let is = |s: &str| -> (b: bool)
        ensures
            b == (e@ == s@),
        { chars_eq(&e, &chars_of(s)) };
    is("png") || is("jpg") || is("jpeg") || is("gif") || is("webp") || is("bmp") || is("ico") || is("tiff") || is(
        "svgz",
    ) || is("pdf") || is("ipynb") || is("zip") || is("gz") || is("wasm") || is("mp3") || is("mp4") || is("wav")
}

/// Whether a read of a file with extension `ext` and `size` bytes (`None`
/// when it is missing or not a regular file) is worth an outline: a whole
/// read of a text file that is big, but not too big to outline.
pub open spec fn wants_outline_spec(ext: Seq<char>, ranged: bool, size: Option<u64>) -> bool {
    &&& !ranged
    &&& !not_text_spec(ext)
    &&& match size {
        Some(s) => GUARD_BYTES < s <= OUTLINE_MAX_BYTES,
        None => false,
    }
}

/// Ranged reads always go through, and so does a whole-file read of a
/// file no bigger than `GUARD_BYTES`, or of unknown size.
pub proof fn law_ranged_and_small_reads_pass(ext: Seq<char>, size: Option<u64>)
    ensures
        !wants_outline_spec(ext, true, size),
        !wants_outline_spec(ext, false, None),
        size matches Some(s) && s <= GUARD_BYTES ==> !wants_outline_spec(ext, false, size),
{
}

pub fn wants_outline(ext: &str, ranged: bool, size: Option<u64>) -> (r: bool)
    ensures
        r == wants_outline_spec(ext@, ranged, size),
{
    if ranged || not_text(ext) {
        return false;
    }
    match size {
        Some(s) => GUARD_BYTES < s && s <= OUTLINE_MAX_BYTES,
        None => false,
    }
}

/// What `String::from_utf8_lossy` makes of the bytes.
pub uninterp spec fn utf8_lossy(b: Seq<u8>) -> Seq<char>;

/// `String::from_utf8_lossy`. Claims: the text is the named `utf8_lossy`
/// of the bytes.
#[verifier::external_body]
fn from_utf8_lossy(b: &[u8]) -> (r: String)
    ensures
        r@ == utf8_lossy(b@),
{
    String::from_utf8_lossy(b).into_owned()
}

/// A zero byte among the first 8 KiB: the file is binary.
pub open spec fn looks_binary(b: Seq<u8>) -> bool {
    exists|i: int| 0 <= i < b.len() && i < 8192 && b[i] == 0
}

/// The first entry at `depth`, if any.
pub open spec fn first_at_depth(es: Seq<EntryV>, depth: nat) -> Option<EntryV>
    decreases es.len(),
{
    if es.len() == 0 {
        None
    } else if es[0].depth == depth {
        Some(es[0])
    } else {
        first_at_depth(es.drop_first(), depth)
    }
}

/// The example range: the first of the deepest entries shown, else the
/// first entry.
pub open spec fn example_of(es: Seq<EntryV>) -> EntryV {
    let shown = pick_spec(es, OUTLINE_ENTRIES as nat);
    match first_at_depth(shown, deepest(shown)) {
        Some(e) => e,
        None => es[0],
    }
}

/// Lines from `e.start` on to read the example entry whole (an entry
/// spans at least its first line, and never more lines than a `usize`
/// counts).
pub open spec fn span(e: EntryV) -> nat {
    if e.start <= e.end + 1 {
        if e.end + 1 - e.start <= usize::MAX {
            (e.end + 1 - e.start) as nat
        } else {
            usize::MAX as nat
        }
    } else {
        0
    }
}

pub open spec fn message_spec(rel: Seq<char>, size: nat, tokens: nat, es: Seq<EntryV>) -> Seq<char> {
    let ex = example_of(es);
    "relay: "@ + rel + " is "@ + human_bytes_spec(size) + " (~"@ + human_tokens_spec(tokens)
        + " tokens, estimated), too big to read whole. Its outline, by line:\n\n"@ + trim_end_spec(
        render_spec(es, OUTLINE_ENTRIES as nat),
    ) + "\nRead only the part you need: Read with offset and limit (offset "@ + dec(ex.start) + " and limit "@
        + dec(span(ex)) + " for \""@ + ex.title
        + "\"), or Grep for a word or id. `relay brief <id or words>` prints the matching sections of the plan docs. Ranged reads always go through."@
}

/// The outline to show instead of a whole read of a file `rel` of `size`
/// bytes holding `bytes`; `None` for a binary file.
pub open spec fn guard_spec(rel: Seq<char>, size: nat, bytes: Seq<u8>) -> Option<(Seq<char>, nat)> {
    if looks_binary(bytes) {
        None
    } else {
        let text = utf8_lossy(bytes);
        let tokens = est_tokens_spec(text);
        let es = of_spec(text, is_markdown_spec(rel));
        if es.len() == 0 {
            None
        } else {
            Some((message_spec(rel, size, tokens, es), tokens))
        }
    }
}

proof fn lemma_lines_nonempty(s: Seq<char>)
    requires
        s.len() > 0,
    ensures
        lines_of(s).len() > 0,
{
}

/// A text with at least one character has an outline.
pub proof fn lemma_outline_nonempty(text: Seq<char>, markdown: bool)
    requires
        text.len() > 0,
    ensures
        of_spec(text, markdown).len() > 0,
{
    lemma_lines_nonempty(text);
    let n = lines_of(text).len();
    assert((n + 400 - 1) / 400 >= 1) by (nonlinear_arith)
        requires
            n >= 1,
    ;
}

fn first_at_depth_exec(es: &Vec<Entry>, depth: usize) -> (r: Option<usize>)
    ensures
        match r {
            Some(i) => i < es@.len() && first_at_depth(entries_view(es@), depth as nat) == Some(es@[i as int].view()),
            None => first_at_depth(entries_view(es@), depth as nat) is None,
        },
{
    let ghost ev = entries_view(es@);
    let mut i: usize = 0;
    proof {
        assert(ev.skip(0) =~= ev);
    }
    while i < es.len()
        invariant
            ev == entries_view(es@),
            i <= es@.len(),
            first_at_depth(ev.skip(i as int), depth as nat) == first_at_depth(ev, depth as nat),
        decreases es@.len() - i,
    {
        proof {
            assert(ev.skip(i as int)[0] == es@[i as int].view());
            assert(ev.skip(i as int).drop_first() =~= ev.skip(i + 1));
        }
        if es[i].depth == depth {
            return Some(i);
        }
        i += 1;
    }
    proof {
        assert(ev.skip(es@.len() as int) =~= Seq::<EntryV>::empty());
    }
    None
}

fn deepest_of(es: &Vec<Entry>) -> (d: usize)
    ensures
        d == deepest(entries_view(es@)),
{
    let ghost ev = entries_view(es@);
    if es.len() == 0 {
        return 1;
    }
    let mut m: usize = 0;
    let mut i: usize = 0;
    while i < es.len()
        invariant
            ev == entries_view(es@),
            i <= es@.len(),
            m == crate::outline::max_depth(ev.take(i as int)),
        decreases es@.len() - i,
    {
        proof {
            assert(ev.take(i + 1).drop_last() =~= ev.take(i as int));
        }
        if es[i].depth > m {
            m = es[i].depth;
        }
        i += 1;
    }
    proof {
        assert(ev.take(es@.len() as int) =~= ev);
    }
    m
}

/// The outline to show instead of reading the file `rel` (of `size`
/// bytes, holding `bytes`) whole; `None` when it is binary.
pub fn guard(rel: &str, size: u64, bytes: &[u8]) -> (r: Option<Guarded>)
    ensures
        match r {
            Some(g) => guard_spec(rel@, size as nat, bytes@) == Some((g.message@, g.file_tokens as nat)),
            None => guard_spec(rel@, size as nat, bytes@) is None,
        },
{
    let n = if bytes.len() < 8192 {
        bytes.len()
    } else {
        8192
    };
    let mut i: usize = 0;
    while i < n
        invariant
            n <= bytes@.len(),
            n <= 8192,
            i <= n,
            forall|j: int| 0 <= j < i ==> bytes@[j] != 0,
        decreases n - i,
    {
        if bytes[i] == 0 {
            return None;
        }
        i += 1;
    }
    let text = from_utf8_lossy(bytes);
    let file_tokens = est_tokens(text.as_str());
    let entries = of(text.as_str(), is_markdown(rel));
    if entries.len() == 0 {
        return None;
    }
    let shown = pick(&entries, OUTLINE_ENTRIES);
    let d = deepest_of(&shown);
    let ex = match first_at_depth_exec(&shown, d) {
        Some(k) => shown[k].copy(),
        None => entries[0].copy(),
    };
    let limit: usize = if ex.start <= ex.end {
        if ex.start >= 1 {
            ex.end - ex.start + 1
        } else if ex.end < usize::MAX {
            ex.end + 1
        } else {
            usize::MAX
        }
    } else {
        0
    };
    let mut m = chars_of("relay: ");
    push_text(&mut m, rel);
    push_text(&mut m, " is ");
    let hb = human_bytes(size);
    push_all(&mut m, &hb);
    push_text(&mut m, " (~");
    let ht = human_tokens(file_tokens);
    push_all(&mut m, &ht);
    push_text(&mut m, " tokens, estimated), too big to read whole. Its outline, by line:\n\n");
    let out = render(&entries, OUTLINE_ENTRIES);
    let t = trim_end(&chars_of(out.as_str()));
    push_all(&mut m, &t);
    push_text(&mut m, "\nRead only the part you need: Read with offset and limit (offset ");
    push_dec(&mut m, ex.start as u64);
    push_text(&mut m, " and limit ");
    push_dec(&mut m, limit as u64);
    push_text(&mut m, " for \"");
    push_text(&mut m, ex.title.as_str());
    push_text(
        &mut m,
        "\"), or Grep for a word or id. `relay brief <id or words>` prints the matching sections of the plan docs. Ranged reads always go through.",
    );
    proof {
        assert(!looks_binary(bytes@));
        assert(ex.view() == example_of(entries_view(entries@)));
        assert(limit == span(ex.view()));
    }
    Some(Guarded { message: string_of(&m), file_tokens })
}

} // verus!
