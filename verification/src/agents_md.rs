//! A pointer to relay's memory in the repo's agent instruction file, so an
//! agent without hooks still reads the rules, gotchas and decisions, and is
//! told how to add one. The block sits between markers, so a second
//! `relay init` updates it in place.

use vstd::prelude::*;

use crate::fmt::{push_all, push_text};
use crate::text::{
    chars_eq, chars_of, find_spec, is_blank, locate, slice, string_of, trim_end,
    trim_end_spec, trim_spec, words_eq, words_of,
};

verus! {

pub open spec fn open_marker() -> Seq<char> {
    "<!-- relay -->"@
}

pub open spec fn close_marker() -> Seq<char> {
    "<!-- /relay -->"@
}

pub open spec fn block_spec(shared: Seq<char>) -> Seq<char> {
    "<!-- relay -->\nBefore starting, read `"@ + shared
        + "/project.md`. Rules, gotchas and decisions live under `"@ + shared
        + "/`, one file each; a handoff someone shared is in `"@ + shared
        + "/handoffs/`. When you settle a decision, hit a gotcha or learn a project rule, save it: `relay remember decision|gotcha|rule \"<one line>\"`.\n<!-- /relay -->\n"@
}

/// The block for a shared tier at `shared` (relative to the repo root).
pub fn block(shared: &str) -> (b: String)
    ensures
        b@ == block_spec(shared@),
{
    let mut v: Vec<char> = Vec::new();
    push_text(&mut v, "<!-- relay -->\nBefore starting, read `");
    push_text(&mut v, shared);
    push_text(&mut v, "/project.md`. Rules, gotchas and decisions live under `");
    push_text(&mut v, shared);
    push_text(&mut v, "/`, one file each; a handoff someone shared is in `");
    push_text(&mut v, shared);
    push_text(
        &mut v,
        "/handoffs/`. When you settle a decision, hit a gotcha or learn a project rule, save it: `relay remember decision|gotcha|rule \"<one line>\"`.\n<!-- /relay -->\n",
    );
    string_of(&v)
}

/// What `text` becomes with `blk` in place, before comparing with `text`:
/// `None` when the block there already has the same words.
pub open spec fn placed(t: Seq<char>, blk: Seq<char>) -> Option<Seq<char>> {
    let fa = find_spec(t, open_marker());
    let fb = find_spec(t, close_marker());
    if fa is Some && fb is Some && fb->0 > fa->0 {
        let a = fa->0;
        let b = fb->0;
        let end0 = b + close_marker().len();
        if words_of(t.subrange(a, end0)) == words_of(blk) {
            None
        } else {
            let end = if end0 < t.len() && t[end0] == '\n' {
                end0 + 1
            } else {
                end0
            };
            Some(t.take(a) + blk + t.skip(end))
        }
    } else if trim_spec(t).len() == 0 {
        Some(blk)
    } else {
        Some(trim_end_spec(t) + "\n\n"@ + blk)
    }
}

pub open spec fn with_block_spec(t: Seq<char>, blk: Seq<char>) -> Option<Seq<char>> {
    match placed(t, blk) {
        Some(o) => if o == t {
            None
        } else {
            Some(o)
        },
        None => None,
    }
}

/// `text` with relay's block in place: replaced when present, appended
/// when not. `None` when nothing would change; a block whose words are the
/// same (a formatter may reflow it) counts as unchanged.
pub fn with_block(text: &str, block: &str) -> (r: Option<String>)
    ensures
        match r {
            Some(s) => with_block_spec(text@, block@) == Some(s@),
            None => with_block_spec(text@, block@) == None::<Seq<char>>,
        },
{
    let t = chars_of(text);
    let blk = chars_of(block);
    let open = chars_of("<!-- relay -->");
    let close = chars_of("<!-- /relay -->");
    let fa = locate(&t, &open);
    let fb = locate(&t, &close);
    let out: Vec<char>;
    match (fa, fb) {
        (Some(a), Some(b)) if b > a => {
            let end0 = b + close.len();
            let region = slice(&t, a, end0);
            if words_eq(&region, &blk) {
                return None;
            }
            let end = if end0 < t.len() && t[end0] == '\n' {
                end0 + 1
            } else {
                end0
            };
            let mut o = slice(&t, 0, a);
            push_all(&mut o, &blk);
            let rest = slice(&t, end, t.len());
            push_all(&mut o, &rest);
            proof {
                assert(t@.subrange(0, a as int) =~= t@.take(a as int));
                assert(t@.subrange(end as int, t@.len() as int) =~= t@.skip(end as int));
            }
            out = o;
        },
        _ => {
            if is_blank(&t) {
                out = blk;
            } else {
                let mut o = trim_end(&t);
                push_text(&mut o, "\n\n");
                push_all(&mut o, &blk);
                out = o;
            }
        },
    }
    if chars_eq(&out, &t) {
        None
    } else {
        Some(string_of(&out))
    }
}

} // verus!
