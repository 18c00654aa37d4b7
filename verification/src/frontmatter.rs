//! The `---` block at the top of relay's Markdown files: `key: value`
//! lines between two `---` lines.

use vstd::prelude::*;

use crate::text::{
    chars_of, copy_chars, has_prefix, lines, lines_of, slice, starts_with, string_of, trim,
    trim_spec, trim_start, trim_start_spec,
};

verus! {

pub open spec fn dashes() -> Seq<char> {
    seq!['-', '-', '-']
}

/// `key: ` as it opens a frontmatter line.
pub open spec fn key_prefix(key: Seq<char>) -> Seq<char> {
    key + seq![':', ' ']
}

/// The value of the first `key: ` line among `ls`, before a `---` line.
pub open spec fn fm_scan(ls: Seq<Seq<char>>, key: Seq<char>) -> Option<Seq<char>>
    decreases ls.len(),
{
    if ls.len() == 0 || ls[0] == dashes() {
        None
    } else if has_prefix(ls[0], key_prefix(key)) {
        Some(trim_spec(ls[0].skip(key_prefix(key).len() as int)))
    } else {
        fm_scan(ls.drop_first(), key)
    }
}

/// `frontmatter::get(body, key)`: the trimmed value of `key` in the block
/// that opens `body`; `None` when there is no block or no such key.
pub open spec fn get_spec(body: Seq<char>, key: Seq<char>) -> Option<Seq<char>> {
    let ls = lines_of(body);
    if ls.len() == 0 || ls[0] != dashes() {
        None
    } else {
        fm_scan(ls.drop_first(), key)
    }
}

fn dashes_exec() -> (r: Vec<char>)
    ensures
        r@ == dashes(),
{
    let r = vec!['-', '-', '-'];
    assert(r@ =~= dashes());
    r
}

pub fn get_chars(body: &[char], key: &[char]) -> (r: Option<Vec<char>>)
    ensures
        r.is_some() == get_spec(body@, key@).is_some(),
        r.is_some() ==> r.unwrap()@ == get_spec(body@, key@).unwrap(),
{
    let ls = lines(body);
    let ghost all = ls.deep_view();
    let d = dashes_exec();
    if ls.len() == 0 {
        return None;
    }
    proof {
        assert(all[0] =~= ls@[0]@);
    }
    if !crate::text::chars_eq(&ls[0], &d) {
        return None;
    }
    let mut prefix = copy_chars(key);
    prefix.push(':');
    prefix.push(' ');
    assert(prefix@ =~= key_prefix(key@));
    let mut i: usize = 1;
    proof {
        assert(all.drop_first() =~= all.skip(1));
    }
    while i < ls.len()
        invariant
            1 <= i <= ls.len(),
            all == ls.deep_view(),
            all == lines_of(body@),
            all.len() > 0 && all[0] == dashes(),
            prefix@ == key_prefix(key@),
            d@ == dashes(),
            fm_scan(all.skip(i as int), key@) == fm_scan(all.drop_first(), key@),
        decreases ls.len() - i,
    {
        let l = &ls[i];
        proof {
            assert(all.skip(i as int)[0] =~= l@);
            assert(all.skip(i as int).drop_first() =~= all.skip(i + 1));
        }
        if crate::text::chars_eq(l, &d) {
            return None;
        }
        if starts_with(l, &prefix) {
            let rest = slice(l, prefix.len(), l.len());
            let v = trim(&rest);
            return Some(v);
        }
        i += 1;
    }
    proof {
        assert(all.skip(i as int).len() == 0);
    }
    None
}

pub fn get(body: &str, key: &str) -> (r: Option<String>)
    ensures
        r.is_some() == get_spec(body@, key@).is_some(),
        r.is_some() ==> r.unwrap()@ == get_spec(body@, key@).unwrap(),
{
    let b = chars_of(body);
    let k = chars_of(key);
    match get_chars(&b, &k) {
        Some(v) => Some(string_of(&v)),
        None => None,
    }
}

// ---------------------------------------------------------------------------
// Quoted values
// ---------------------------------------------------------------------------

/// `s` with `\` and `"` escaped by a backslash.
pub open spec fn escape(s: Seq<char>) -> Seq<char>
    decreases s.len(),
{
    if s.len() == 0 {
        seq![]
    } else {
        let c = s.last();
        let e = if c == '\\' || c == '"' {
            seq!['\\', c]
        } else {
            seq![c]
        };
        escape(s.drop_last()) + e
    }
}

/// `quote(s)`: `s` in double quotes, its `\` and `"` escaped.
pub open spec fn quote_spec(s: Seq<char>) -> Seq<char> {
    seq!['"'] + escape(s) + seq!['"']
}

pub fn quote_chars(s: &[char]) -> (r: Vec<char>)
    ensures
        r@ == quote_spec(s@),
{
    let mut r: Vec<char> = vec!['"'];
    let mut i: usize = 0;
    while i < s.len()
        invariant
            i <= s.len(),
            r@ == seq!['"'] + escape(s@.take(i as int)),
        decreases s.len() - i,
    {
        let c = s[i];
        if c == '\\' || c == '"' {
            r.push('\\');
        }
        r.push(c);
        proof {
            assert(s@.take(i + 1).drop_last() =~= s@.take(i as int));
        }
        i += 1;
        assert(r@ =~= seq!['"'] + escape(s@.take(i as int)));
    }
    r.push('"');
    assert(s@.take(s.len() as int) =~= s@);
    assert(r@ =~= quote_spec(s@));
    r
}

pub fn quote(s: &str) -> (r: String)
    ensures
        r@ == quote_spec(s@),
{
    let v = chars_of(s);
    let q = quote_chars(&v);
    string_of(&q)
}

/// Escapes undone: a backslash keeps the character after it.
pub open spec fn unescape(s: Seq<char>) -> Seq<char>
    decreases s.len(),
{
    if s.len() == 0 {
        seq![]
    } else if s[0] == '\\' && s.len() > 1 {
        seq![s[1]] + unescape(s.skip(2))
    } else {
        seq![s[0]] + unescape(s.drop_first())
    }
}

/// A value as written: a double-quoted one unescaped, any other as is.
pub open spec fn unquote(v: Seq<char>) -> Seq<char> {
    if v.len() >= 2 && v[0] == '"' && v.last() == '"' {
        unescape(v.subrange(1, v.len() - 1))
    } else {
        v
    }
}

/// `frontmatter::get_text`: a value that may have been written quoted.
pub open spec fn get_text_spec(body: Seq<char>, key: Seq<char>) -> Option<Seq<char>> {
    match get_spec(body, key) {
        Some(v) => Some(unquote(v)),
        None => None,
    }
}

pub fn unescape_chars(s: &[char]) -> (r: Vec<char>)
    ensures
        r@ == unescape(s@),
{
    let mut r: Vec<char> = Vec::new();
    let mut i: usize = 0;
    proof {
        assert(s@.skip(0) =~= s@);
    }
    while i < s.len()
        invariant
            i <= s.len(),
            r@ + unescape(s@.skip(i as int)) == unescape(s@),
        decreases s.len() - i,
    {
        let ghost rest = s@.skip(i as int);
        if s[i] == '\\' && i + 1 < s.len() {
            r.push(s[i + 1]);
            proof {
                assert(rest.skip(2) =~= s@.skip(i + 2));
                assert(r@ + unescape(s@.skip(i + 2)) =~= unescape(s@));
            }
            i += 2;
        } else {
            r.push(s[i]);
            proof {
                assert(rest.drop_first() =~= s@.skip(i + 1));
                assert(r@ + unescape(s@.skip(i + 1)) =~= unescape(s@));
            }
            i += 1;
        }
    }
    proof {
        assert(s@.skip(i as int) =~= Seq::<char>::empty());
        assert(r@ + Seq::<char>::empty() =~= r@);
    }
    r
}

pub fn unquote_chars(v: &[char]) -> (r: Vec<char>)
    ensures
        r@ == unquote(v@),
{
    if v.len() >= 2 && v[0] == '"' && v[v.len() - 1] == '"' {
        let inner = slice(v, 1, v.len() - 1);
        unescape_chars(&inner)
    } else {
        copy_chars(v)
    }
}

pub fn get_text(body: &str, key: &str) -> (r: Option<String>)
    ensures
        r.is_some() == get_text_spec(body@, key@).is_some(),
        r.is_some() ==> r.unwrap()@ == get_text_spec(body@, key@).unwrap(),
{
    let b = chars_of(body);
    let k = chars_of(key);
    match get_chars(&b, &k) {
        Some(v) => {
            let u = unquote_chars(&v);
            Some(string_of(&u))
        },
        None => None,
    }
}

// ---------------------------------------------------------------------------
// The body after the block
// ---------------------------------------------------------------------------

/// Length of the line break at `i`: 1 for `\n`, 2 for `\r\n`, else 0.
pub open spec fn break_at(s: Seq<char>, i: int) -> int {
    if 0 <= i < s.len() && s[i] == '\n' {
        1
    } else if 0 <= i && i + 1 < s.len() && s[i] == '\r' && s[i + 1] == '\n' {
        2
    } else {
        0
    }
}

/// A `---` line opens at `i` and its line break follows.
pub open spec fn dash_line_at(s: Seq<char>, i: int) -> bool {
    &&& 0 <= i
    &&& i + 3 <= s.len()
    &&& s.subrange(i, i + 3) == dashes()
    &&& break_at(s, i + 3) > 0
}

/// Where the closing `---` line starts: the first `i` at or after `from`
/// with a line break before it and a `---` line at it.
pub open spec fn closing_at(s: Seq<char>, from: int, i: int) -> bool {
    &&& from <= i
    &&& s[i - 1] == '\n'
    &&& dash_line_at(s, i)
    &&& forall|j: int| from <= j < i ==> !(s[j - 1] == '\n' && dash_line_at(s, j))
}

/// `frontmatter::strip(body)`: the text after the closing `---` line,
/// without its leading whitespace; `body` itself when it does not open
/// with a block or the block is never closed.
pub open spec fn strip_spec(body: Seq<char>) -> Seq<char> {
    if dash_line_at(body, 0) {
        let from = 3 + break_at(body, 3);
        if exists|i: int| closing_at(body, from, i) {
            let i = choose|i: int| closing_at(body, from, i);
            trim_start_spec(body.skip(i + 3 + break_at(body, i + 3)))
        } else {
            body
        }
    } else {
        body
    }
}

fn break_len(s: &[char], i: usize) -> (r: usize)
    ensures
        r == break_at(s@, i as int),
{
    if i < s.len() && s[i] == '\n' {
        1
    } else if i < s.len() && s.len() - i > 1 && s[i] == '\r' && s[i + 1] == '\n' {
        2
    } else {
        0
    }
}

fn dash_line(s: &[char], i: usize) -> (r: bool)
    ensures
        r == dash_line_at(s@, i as int),
{
    if i > s.len() || s.len() - i < 3 {
        return false;
    }
    let ok = s[i] == '-' && s[i + 1] == '-' && s[i + 2] == '-';
    proof {
        if ok {
            assert(s@.subrange(i as int, i + 3) =~= dashes());
        } else {
            let sub = s@.subrange(i as int, i + 3);
            assert(sub[0] == s@[i as int] && sub[1] == s@[i + 1] && sub[2] == s@[i + 2]);
        }
    }
    ok && break_len(s, i + 3) > 0
}

pub fn strip_chars(body: &[char]) -> (r: Vec<char>)
    ensures
        r@ == strip_spec(body@),
{
    if !dash_line(body, 0) {
        return copy_chars(body);
    }
    let from = 3 + break_len(body, 3);
    let mut i = from;
    while i < body.len()
        invariant
            from <= i,
            from >= 4,
            dash_line_at(body@, 0),
            from == 3 + break_at(body@, 3),
            forall|j: int| from <= j < i ==> !(body@[j - 1] == '\n' && dash_line_at(body@, j)),
        decreases body.len() - i,
    {
        if body[i - 1] == '\n' && dash_line(body, i) {
            proof {
                assert(closing_at(body@, from as int, i as int));
                let k = choose|k: int| closing_at(body@, from as int, k);
                if k < i {
                    assert(!(body@[k - 1] == '\n' && dash_line_at(body@, k)));
                } else if k > i {
                    assert(!(body@[i - 1] == '\n' && dash_line_at(body@, i as int)));
                }
                assert(k == i);
            }
            let after = i + 3 + break_len(body, i + 3);
            let rest = slice(body, after, body.len());
            return trim_start(&rest);
        }
        i += 1;
    }
    proof {
        assert forall|k: int| !closing_at(body@, from as int, k) by {
            if closing_at(body@, from as int, k) {
                assert(k + 3 <= body@.len());
                assert(from <= k < i);
            }
        }
    }
    copy_chars(body)
}

pub fn strip(body: &str) -> (r: String)
    ensures
        r@ == strip_spec(body@),
{
    let b = chars_of(body);
    let s = strip_chars(&b);
    string_of(&s)
}

} // verus!
