//! A command's raw output turned into what the model sees, with the
//! original kept one `relay get` away. Shared by `relay x` and the hook
//! that shrinks output after the harness ran the command itself. The
//! caller runs the command, compresses, and stores; what is shown, and
//! what the stored record says, is decided here.

use vstd::prelude::*;

use crate::fmt::{est_tokens, est_tokens_spec, human_tokens, human_tokens_spec, push_all, push_text};
use crate::limits::MIN_OUTPUT_BYTES;
use crate::outputs::OutputMeta;
use crate::text::{chars_of, string_of, utf8_len};

verus! {

/// The script `relay x` hands the shell: the command in a group whose
/// stderr joins its stdout, so compilers and test runners keep their
/// natural interleaving.
pub open spec fn shell_script_spec(cmd: Seq<char>) -> Seq<char> {
    "{\n"@ + cmd + "\n} 2>&1"@
}

pub fn shell_script(cmd: &str) -> (r: String)
    ensures
        r@ == shell_script_spec(cmd@),
{
    let mut v = chars_of("{\n");
    push_text(&mut v, cmd);
    push_text(&mut v, "\n} 2>&1");
    string_of(&v)
}

/// Output shown as it came (colour codes aside): asked for raw, or too
/// short to be worth compressing.
pub open spec fn passes_spec(raw_only: bool, raw: Seq<char>) -> bool {
    raw_only || utf8_len(raw) < MIN_OUTPUT_BYTES
}

pub fn passes(raw_only: bool, raw: &str) -> (r: bool)
    ensures
        r == passes_spec(raw_only, raw@),
{
    raw_only || crate::text::byte_len(&chars_of(raw)) < MIN_OUTPUT_BYTES as u128
}

/// What the model sees. A cut view is shown only when its original is
/// retrievable, with the way to get it back; without a stored original a
/// cut view gives way to the whole output.
pub open spec fn view_spec(
    text: Seq<char>,
    shortened: bool,
    plain_raw: Seq<char>,
    stored: Option<Seq<char>>,
    before: nat,
    after: nat,
) -> Seq<char> {
    if shortened {
        match stored {
            Some(id) => text + "\n[relay "@ + human_tokens_spec(before) + "→"@ + human_tokens_spec(after)
                + " tokens · original: relay get "@ + id + "]"@,
            None => plain_raw,
        }
    } else {
        text
    }
}

/// `text` is the compressed view and `shortened` whether it cut anything;
/// `plain_raw` the raw output without colour codes; `stored` the id its
/// original was kept under.
pub fn view(
    text: &str,
    shortened: bool,
    plain_raw: &str,
    stored: Option<&str>,
    before: usize,
    after: usize,
) -> (r: String)
    ensures
        r@ == view_spec(
            text@,
            shortened,
            plain_raw@,
            match stored {
                Some(id) => Some(id@),
                None => None,
            },
            before as nat,
            after as nat,
        ),
{
    if !shortened {
        return text.to_string();
    }
    match stored {
        None => plain_raw.to_string(),
        Some(id) => {
            let mut v = chars_of(text);
            push_text(&mut v, "\n[relay ");
            let b = human_tokens(before);
            push_all(&mut v, &b);
            push_text(&mut v, "→");
            let a = human_tokens(after);
            push_all(&mut v, &a);
            push_text(&mut v, " tokens · original: relay get ");
            push_text(&mut v, id);
            push_text(&mut v, "]");
            string_of(&v)
        },
    }
}


/// Every cut view names its original: when the view was cut and the
/// original kept under `id`, what the model sees ends with the command
/// that brings it back. A view that cut nothing is shown as it is.
pub proof fn law_cut_view_names_original(
    text: Seq<char>,
    plain_raw: Seq<char>,
    id: Seq<char>,
    before: nat,
    after: nat,
    stored: Option<Seq<char>>,
)
    ensures
        crate::text::has_suffix(view_spec(text, true, plain_raw, Some(id), before, after), "relay get "@ + id + "]"@),
        view_spec(text, false, plain_raw, stored, before, after) == text,
{
    reveal_strlit(" tokens · original: relay get ");
    reveal_strlit("relay get ");
    let head = text + "\n[relay "@ + human_tokens_spec(before) + "→"@ + human_tokens_spec(after)
        + " tokens · original: "@;
    reveal_strlit(" tokens · original: ");
    let v = view_spec(text, true, plain_raw, Some(id), before, after);
    let tail = "relay get "@ + id + "]"@;
    assert(" tokens · original: relay get "@ =~= " tokens · original: "@ + "relay get "@);
    assert(v =~= head + tail);
    assert(v.skip(v.len() - tail.len()) =~= tail);
}

/// The record kept beside an original: `raw` as the command printed it,
/// `text` the view made of it by the filter named `filter`.
pub fn record(
    id: String,
    ts: String,
    session: Option<String>,
    cwd: String,
    cmd: &str,
    exit: i32,
    filter: &str,
    raw: &str,
    text: &str,
) -> (r: OutputMeta)
    requires
        utf8_len(raw@) <= usize::MAX,
        utf8_len(text@) <= usize::MAX,
    ensures
        r.id == id,
        r.ts == ts,
        r.session == session,
        r.cwd == cwd,
        r.cmd@ == cmd@,
        r.exit == exit,
        r.filter@ == filter@,
        r.bytes_in == utf8_len(raw@),
        r.bytes_out == utf8_len(text@),
        r.tokens_in == est_tokens_spec(raw@),
        r.tokens_out == est_tokens_spec(text@),
{
    let bytes_in = crate::text::str_bytes(raw) as usize;
    let bytes_out = crate::text::str_bytes(text) as usize;
    OutputMeta {
        id,
        ts,
        session,
        cwd,
        cmd: cmd.to_string(),
        exit,
        filter: filter.to_string(),
        bytes_in,
        bytes_out,
        tokens_in: est_tokens(raw),
        tokens_out: est_tokens(text),
    }
}

} // verus!
