//! relay's own failure log. Hooks fail open, so a failure must never reach
//! the harness; it lands here instead, one line per failure. The caller
//! appends and rewrites the file; the line and what a full log keeps are
//! decided here.

use vstd::prelude::*;

use crate::fmt::push_text;
use crate::limits::LOG_BYTES;
use crate::text::{chars_of, join, join_spec, lines, lines_of, string_of};

verus! {

pub open spec fn no_newlines(s: Seq<char>) -> Seq<char> {
    s.map_values(|c: char| if c == '\n' { ' ' } else { c })
}

/// The line a failure is logged as: when, a space, and what failed on
/// one line.
pub open spec fn entry_spec(now: Seq<char>, what: Seq<char>) -> Seq<char> {
    now + " "@ + no_newlines(what) + "\n"@
}

pub fn entry(now: &str, what: &str) -> (r: String)
    ensures
        r@ == entry_spec(now@, what@),
{
    let mut v = chars_of(now);
    push_text(&mut v, " ");
    let w = chars_of(what);
    let ghost start = v@;
    let mut i: usize = 0;
    while i < w.len()
        invariant
            i <= w@.len(),
            v@ == start + no_newlines(w@.take(i as int)),
        decreases w@.len() - i,
    {
        let c = w[i];
        v.push(if c == '\n' {
            ' '
        } else {
            c
        });
        proof {
            assert(no_newlines(w@.take(i + 1)) =~= no_newlines(w@.take(i as int)).push(
                if w@[i as int] == '\n' {
                    ' '
                } else {
                    w@[i as int]
                },
            ));
        }
        i += 1;
    }
    proof {
        assert(w@.take(w@.len() as int) =~= w@);
    }
    push_text(&mut v, "\n");
    string_of(&v)
}

/// A log past its size is cut to its newer half.
pub fn is_full(size: u64) -> (r: bool)
    ensures
        r == (size > LOG_BYTES),
{
    size > LOG_BYTES
}

/// What a full log keeps: the newer half of its lines (the later one when
/// the count is odd), each ending in a newline.
pub open spec fn newest_half_spec(text: Seq<char>) -> Seq<char> {
    let ls = lines_of(text);
    join_spec(ls.skip((ls.len() / 2) as int), "\n"@) + "\n"@
}

pub fn newest_half(text: &str) -> (r: String)
    ensures
        r@ == newest_half_spec(text@),
{
    let ls = lines(&chars_of(text));
    let ghost lv = ls.deep_view();
    let from = ls.len() / 2;
    let mut kept: Vec<Vec<char>> = Vec::new();
    let mut i = from;
    while i < ls.len()
        invariant
            lv == ls.deep_view(),
            from <= i <= ls@.len(),
            kept.deep_view() == lv.subrange(from as int, i as int),
        decreases ls@.len() - i,
    {
        let l = crate::text::copy_chars(&ls[i]);
        let ghost before = kept.deep_view();
        kept.push(l);
        proof {
            assert(lv.len() == ls@.len());
            assert(l.deep_view() =~= l@);
            assert(kept.deep_view() =~= before.push(l@));
            assert(lv.subrange(from as int, i + 1) =~= lv.subrange(from as int, i as int).push(lv[i as int]));
        }
        i += 1;
    }
    proof {
        assert(lv.len() == ls@.len());
        assert(lv.subrange(from as int, ls@.len() as int) =~= lv.skip(from as int));
    }
    let nl = chars_of("\n");
    let mut out = join(&kept, &nl);
    push_text(&mut out, "\n");
    string_of(&out)
}

} // verus!
