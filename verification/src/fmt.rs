//! Numbers and sizes as the user reads them: decimal counts, token and
//! byte sizes, nouns that agree with their count, and texts cut to a width.

use vstd::prelude::*;

use crate::text::{byte_len, chars_of, copy_chars, lines, lines_of, slice, string_of, utf8_len};

verus! {

pub open spec fn digit(d: nat) -> char {
    ((48 + d) as u32) as char
}

/// Decimal digits of `n`, no sign, no leading zeros.
pub open spec fn dec(n: nat) -> Seq<char>
    decreases n,
{
    if n < 10 {
        seq![digit(n)]
    } else {
        dec(n / 10).push(digit(n % 10))
    }
}

pub fn digit_char(d: u64) -> (c: char)
    requires
        d < 10,
    ensures
        c == digit(d as nat),
{
    let b: u8 = 48 + (d as u8);
    b as char
}

/// Appends the decimal digits of `n`.
pub fn push_dec(v: &mut Vec<char>, n: u64)
    ensures
        final(v)@ == old(v)@ + dec(n as nat),
    decreases n,
{
    if n >= 10 {
        push_dec(v, n / 10);
    }
    let c = digit_char(n % 10);
    v.push(c);
    proof {
        if n < 10 {
            assert(dec(n as nat) == seq![digit(n as nat)]);
        }
    }
}

/// Appends the characters of `t`.
pub fn push_all(v: &mut Vec<char>, t: &[char])
    ensures
        final(v)@ == old(v)@ + t@,
{
    let ghost start = v@;
    let mut i: usize = 0;
    while i < t.len()
        invariant
            i <= t.len(),
            v@ == start + t@.take(i as int),
        decreases t.len() - i,
    {
        v.push(t[i]);
        i += 1;
        assert(t@.take(i as int) == t@.take(i - 1).push(t@[i - 1]));
    }
    assert(t@.take(t@.len() as int) == t@);
}

/// Appends the characters of `t`.
pub fn push_text(v: &mut Vec<char>, t: &str)
    ensures
        final(v)@ == old(v)@ + t@,
{
    let c = chars_of(t);
    push_all(v, &c);
}

pub fn dec_string(n: usize) -> (s: String)
    ensures
        s@ == dec(n as nat),
{
    let mut v: Vec<char> = Vec::new();
    push_dec(&mut v, n as u64);
    string_of(&v)
}

// ---------------------------------------------------------------------------
// Token and byte sizes
// ---------------------------------------------------------------------------

/// The token estimate for a text of `bytes` UTF-8 bytes: a quarter of its
/// size, rounded up.
pub open spec fn est_tokens_of(bytes: nat) -> nat {
    (bytes + 3) / 4
}

/// Estimated tokens of `s`.
pub open spec fn est_tokens_spec(s: Seq<char>) -> nat {
    est_tokens_of(utf8_len(s))
}

pub fn est_tokens_bytes(bytes: usize) -> (t: usize)
    ensures
        t == est_tokens_of(bytes as nat),
{
    bytes / 4 + if bytes % 4 == 0 {
        0
    } else {
        1
    }
}

/// Estimated tokens of `s`: its UTF-8 size over four, rounded up.
pub fn est_tokens(s: &str) -> (t: usize)
    ensures
        t == est_tokens_spec(s@),
{
    let v = chars_of(s);
    est_tokens_chars(&v)
}

pub fn est_tokens_chars(v: &[char]) -> (t: usize)
    ensures
        t == est_tokens_spec(v@),
{
    let n = byte_len(v);
    let q: u128 = n / 4 + if n % 4 == 0 {
        0
    } else {
        1
    };
    assert(q == (n + 3) / 4 && q <= v@.len()) by (nonlinear_arith)
        requires
            q == n / 4 + if n % 4 == 0 {
                0int
            } else {
                1int
            },
            n <= 4 * v@.len(),
    ;
    let len = v.len();
    assert(q <= len);
    q as usize
}

/// `n` in tenths: `12.3` for 123.
pub open spec fn tenths(t: nat) -> Seq<char> {
    dec(t / 10).push('.') + dec(t % 10)
}

/// `human_tokens`: `950`, `8.2k`, `1.3M`.
pub open spec fn human_tokens_spec(n: nat) -> Seq<char> {
    if n < 1000 {
        dec(n)
    } else if n < 1_000_000 {
        tenths((n + 50) / 100).push('k')
    } else {
        tenths((n + 50_000) / 100_000).push('M')
    }
}

pub fn push_tenths(v: &mut Vec<char>, t: u64)
    ensures
        final(v)@ == old(v)@ + tenths(t as nat),
{
    let ghost start = v@;
    push_dec(v, t / 10);
    v.push('.');
    push_dec(v, t % 10);
    assert(v@ =~= start + tenths(t as nat));
}

pub fn human_tokens(n: usize) -> (s: Vec<char>)
    ensures
        s@ == human_tokens_spec(n as nat),
{
    let mut v: Vec<char> = Vec::new();
    if n < 1000 {
        push_dec(&mut v, n as u64);
    } else if n < 1_000_000 {
        push_tenths(&mut v, ((n + 50) / 100) as u64);
        v.push('k');
    } else {
        let t = n / 100_000 + if n % 100_000 >= 50_000 {
            1
        } else {
            0
        };
        assert(t == (n + 50_000) / 100_000) by (nonlinear_arith)
            requires
                t == n / 100_000 + if n % 100_000 >= 50_000 {
                    1int
                } else {
                    0int
                },
        ;
        push_tenths(&mut v, t as u64);
        v.push('M');
    }
    v
}

/// `human_bytes`: `512 B`, `8 KB`, `1.5 MB`.
pub open spec fn human_bytes_spec(n: nat) -> Seq<char> {
    if n < 1024 {
        dec(n) + seq![' ', 'B']
    } else if n < 1024 * 1024 {
        dec((n + 512) / 1024) + seq![' ', 'K', 'B']
    } else {
        tenths((n * 10 + 524_288) / 1_048_576) + seq![' ', 'M', 'B']
    }
}

pub fn human_bytes(n: u64) -> (s: Vec<char>)
    ensures
        s@ == human_bytes_spec(n as nat),
{
    let mut v: Vec<char> = Vec::new();
    if n < 1024 {
        push_dec(&mut v, n);
        v.push(' ');
        v.push('B');
    } else if n < 1024 * 1024 {
        push_dec(&mut v, (n + 512) / 1024);
        v.push(' ');
        v.push('K');
        v.push('B');
    } else {
        // (n * 10 + 2^19) / 2^20, without overflow.
        let q = n / 1_048_576;
        let r = n % 1_048_576;
        let t = q * 10 + (r * 10 + 524_288) / 1_048_576;
        assert(t == (n * 10 + 524_288) / 1_048_576) by (nonlinear_arith)
            requires
                q == n / 1_048_576,
                r == n % 1_048_576,
                t == q * 10 + (r * 10 + 524_288) / 1_048_576,
        ;
        proof {
            assert(q < 0x1_0000_0000_0000);
        }
        push_tenths(&mut v, t);
        v.push(' ');
        v.push('M');
        v.push('B');
    }
    v
}

/// `count(n, noun)`: `1 commit`, `2 commits`.
pub open spec fn count_spec(n: nat, noun: Seq<char>) -> Seq<char> {
    let base = dec(n).push(' ') + noun;
    if n == 1 {
        base
    } else {
        base.push('s')
    }
}

pub fn count(n: usize, noun: &str) -> (s: Vec<char>)
    ensures
        s@ == count_spec(n as nat, noun@),
{
    let mut v: Vec<char> = Vec::new();
    push_dec(&mut v, n as u64);
    v.push(' ');
    push_text(&mut v, noun);
    if n != 1 {
        v.push('s');
    }
    v
}

// ---------------------------------------------------------------------------
// Cutting text
// ---------------------------------------------------------------------------

pub open spec fn ellipsis() -> char {
    '\u{2026}'
}

/// `truncate_chars(s, max)`: `s` when it has at most `max` characters,
/// else its first `max - 1` and `…`.
pub open spec fn truncate_spec(s: Seq<char>, max: nat) -> Seq<char> {
    if s.len() <= max {
        s
    } else if max == 0 {
        seq![ellipsis()]
    } else {
        s.take(max - 1).push(ellipsis())
    }
}

pub fn truncate_chars(s: &[char], max: usize) -> (r: Vec<char>)
    ensures
        r@ == truncate_spec(s@, max as nat),
{
    if s.len() <= max {
        return copy_chars(s);
    }
    let keep = if max == 0 {
        0
    } else {
        max - 1
    };
    let mut r = slice(s, 0, keep);
    r.push('\u{2026}');
    r
}

pub fn truncate_str(s: &str, max: usize) -> (r: String)
    ensures
        r@ == truncate_spec(s@, max as nat),
{
    let v = chars_of(s);
    let t = truncate_chars(&v, max);
    string_of(&t)
}

/// The whole lines of `text` that fit in `max` bytes, each with its
/// newline: the first `k` lines for the largest `k` that fits.
pub open spec fn fitting_lines(ls: Seq<Seq<char>>, max: int) -> Seq<char>
    decreases ls.len(),
{
    if ls.len() == 0 {
        seq![]
    } else {
        let l = ls[0].push('\n');
        if utf8_len(l) <= max {
            l + fitting_lines(ls.drop_first(), max - utf8_len(l))
        } else {
            seq![]
        }
    }
}

/// `cut_lines(text, max)`: the text itself when it fits in `max` bytes;
/// else its whole lines that fit, and `true` for the cut.
pub open spec fn cut_lines_spec(text: Seq<char>, max: nat) -> (Seq<char>, bool) {
    if utf8_len(text) <= max {
        (text, false)
    } else {
        (fitting_lines(lines_of(text), max as int), true)
    }
}

pub fn cut_lines(text: &[char], max: usize) -> (r: (Vec<char>, bool))
    ensures
        (r.0@, r.1) == cut_lines_spec(text@, max as nat),
{
    let n = byte_len(text);
    if n <= max as u128 {
        return (copy_chars(text), false);
    }
    let ls = lines(text);
    let ghost all = ls.deep_view();
    let mut out: Vec<char> = Vec::new();
    let mut room: usize = max;
    let mut i: usize = 0;
    proof {
        assert(all.skip(0) =~= all);
    }
    while i < ls.len()
        invariant
            i <= ls.len(),
            all == ls.deep_view(),
            all == lines_of(text@),
            utf8_len(text@) > max,
            room <= max,
            out@ + fitting_lines(all.skip(i as int), room as int) == fitting_lines(all, max as int),
        decreases ls.len() - i,
    {
        let mut l = copy_chars(&ls[i]);
        l.push('\n');
        let w = byte_len(&l);
        proof {
            let rest = all.skip(i as int);
            assert(rest[0] == ls@[i as int].deep_view());
            assert(ls@[i as int].deep_view() =~= ls@[i as int]@);
            assert(rest.drop_first() =~= all.skip(i + 1));
        }
        if w > room as u128 {
            proof {
                let rest = all.skip(i as int);
                assert(rest.len() > 0);
                assert(l@ =~= rest[0].push('\n'));
                assert(utf8_len(rest[0].push('\n')) > room);
                assert(fitting_lines(rest, room as int) == Seq::<char>::empty());
                assert(out@ + Seq::<char>::empty() =~= out@);
                assert(out@ == fitting_lines(all, max as int));
                assert(utf8_len(text@) > max);
            }
            return (out, true);
        }
        push_all(&mut out, &l);
        room = room - w as usize;
        i += 1;
        proof {
            assert(out@ + fitting_lines(all.skip(i as int), room as int) =~= fitting_lines(
                all,
                max as int,
            ));
        }
    }
    proof {
        assert(all.skip(i as int) =~= Seq::<Seq<char>>::empty());
        assert(out@ + Seq::<char>::empty() =~= out@);
    }
    (out, true)
}

} // verus!
