//! Moments as seconds since the Unix epoch, written as relay writes them:
//! `2026-09-22T10:00:00Z` in files (so that text order is time order),
//! `2026-09-22 10:00` for people, and `5 min ago` for the recent past.

use vstd::prelude::*;

use crate::fmt::{dec, push_dec};
use crate::text::{chars_of, string_of};

verus! {

/// Year, month and day of `days` after 1970-01-01 (proleptic Gregorian).
pub open spec fn civil(days: int) -> (int, int, int) {
    let z = days + 719468;
    let era = z / 146097;
    let doe = z - era * 146097;
    let yoe = (doe - doe / 1460 + doe / 36524 - doe / 146096) / 365;
    let doy = doe - (365 * yoe + yoe / 4 - yoe / 100);
    let mp = (5 * doy + 2) / 153;
    let d = doy - (153 * mp + 2) / 5 + 1;
    let m = if mp < 10 {
        mp + 3
    } else {
        mp - 9
    };
    let y = yoe + era * 400 + if m <= 2 {
        1int
    } else {
        0int
    };
    (y, m, d)
}

/// `n` in at least `w` digits, zeros in front.
pub open spec fn padded(n: nat, w: nat) -> Seq<char> {
    let d = dec(n);
    if d.len() < w {
        Seq::new((w - d.len()) as nat, |i: int| '0') + d
    } else {
        d
    }
}

/// `iso(t)`: `YYYY-MM-DDTHH:MM:SSZ` in UTC.
pub open spec fn iso_spec(t: nat) -> Seq<char> {
    let s = t % 86400;
    date_spec(t) + seq!['T'] + padded(s / 3600, 2) + seq![':'] + padded((s % 3600) / 60, 2) + seq![':']
        + padded(s % 60, 2) + seq!['Z']
}

/// `short_utc(t)`: `YYYY-MM-DD HH:MM`, UTC.
pub open spec fn short_utc_spec(t: nat) -> Seq<char> {
    let s = t % 86400;
    date_spec(t) + seq![' '] + padded(s / 3600, 2) + seq![':'] + padded((s % 3600) / 60, 2)
}

pub fn push_padded(v: &mut Vec<char>, n: u64, w: usize)
    ensures
        final(v)@ == old(v)@ + padded(n as nat, w as nat),
{
    let mut d: Vec<char> = Vec::new();
    push_dec(&mut d, n);
    assert(d@ =~= dec(n as nat));
    let ghost start = v@;
    if d.len() < w {
        let k = w - d.len();
        let mut i: usize = 0;
        while i < k
            invariant
                i <= k,
                v@ == start + Seq::new(i as nat, |j: int| '0'),
            decreases k - i,
        {
            v.push('0');
            i += 1;
            assert(v@ =~= start + Seq::new(i as nat, |j: int| '0'));
        }
    }
    let ghost mid = v@;
    crate::fmt::push_all(v, &d);
    assert(v@ =~= start + padded(n as nat, w as nat));
}

/// Year, month and day of `days` after the epoch.
pub fn civil_exec(days: u64) -> (r: (u64, u64, u64))
    requires
        days <= 1_000_000_000_000_000,
    ensures
        (r.0 as int, r.1 as int, r.2 as int) == civil(days as int),
{
    let z = days + 719468;
    let era = z / 146097;
    let doe = z - era * 146097;
    let yoe = (doe - doe / 1460 + doe / 36524 - doe / 146096) / 365;
    let doy = doe - (365 * yoe + yoe / 4 - yoe / 100);
    let mp = (5 * doy + 2) / 153;
    let d = doy - (153 * mp + 2) / 5 + 1;
    let m = if mp < 10 {
        mp + 3
    } else {
        mp - 9
    };
    let y = yoe + era * 400 + if m <= 2 {
        1
    } else {
        0
    };
    (y, m, d)
}


pub open spec fn date_spec(t: nat) -> Seq<char> {
    let (y, m, d) = civil((t / 86400) as int);
    padded(y as nat, 4) + seq!['-'] + padded(m as nat, 2) + seq!['-'] + padded(d as nat, 2)
}

fn push_date(v: &mut Vec<char>, t: u64)
    ensures
        final(v)@ == old(v)@ + date_spec(t as nat),
{
    let ghost start = v@;
    let days = t / 86400;
    let (y, m, d) = civil_exec(days);
    push_padded(v, y, 4);
    let ghost a = v@;
    v.push('-');
    push_padded(v, m, 2);
    let ghost b = v@;
    v.push('-');
    push_padded(v, d, 2);
    proof {
        let c = civil((t / 86400) as int);
        assert(y as int == c.0 && m as int == c.1 && d as int == c.2);
        assert(v@ =~= start + date_spec(t as nat));
    }
}

/// `iso(t)`: `YYYY-MM-DDTHH:MM:SSZ`.
pub fn iso(t: u64) -> (r: String)
    ensures
        r@ == iso_spec(t as nat),
{
    let mut v: Vec<char> = Vec::new();
    push_date(&mut v, t);
    let s = t % 86400;
    v.push('T');
    push_padded(&mut v, s / 3600, 2);
    v.push(':');
    push_padded(&mut v, (s % 3600) / 60, 2);
    v.push(':');
    push_padded(&mut v, s % 60, 2);
    v.push('Z');
    assert(v@ =~= iso_spec(t as nat));
    string_of(&v)
}

/// `short_utc(t)`: `YYYY-MM-DD HH:MM`.
pub fn short_utc(t: u64) -> (r: String)
    ensures
        r@ == short_utc_spec(t as nat),
{
    let mut v: Vec<char> = Vec::new();
    push_date(&mut v, t);
    let s = t % 86400;
    v.push(' ');
    push_padded(&mut v, s / 3600, 2);
    v.push(':');
    push_padded(&mut v, (s % 3600) / 60, 2);
    assert(v@ =~= short_utc_spec(t as nat));
    string_of(&v)
}

/// `ago(then, now)`: `just now`, `5 min ago`, `6 h ago`, `3 d ago`.
pub open spec fn ago_spec(then: nat, now: nat) -> Seq<char> {
    let d: nat = if now >= then {
        (now - then) as nat
    } else {
        0
    };
    if d < 60 {
        seq!['j', 'u', 's', 't', ' ', 'n', 'o', 'w']
    } else if d < 3600 {
        dec(d / 60) + seq![' ', 'm', 'i', 'n', ' ', 'a', 'g', 'o']
    } else if d < 86400 {
        dec(d / 3600) + seq![' ', 'h', ' ', 'a', 'g', 'o']
    } else {
        dec(d / 86400) + seq![' ', 'd', ' ', 'a', 'g', 'o']
    }
}

pub fn ago(then: u64, now: u64) -> (r: String)
    ensures
        r@ == ago_spec(then as nat, now as nat),
{
    let d = if now >= then {
        now - then
    } else {
        0
    };
    let mut v: Vec<char> = Vec::new();
    if d < 60 {
        crate::fmt::push_text(&mut v, "just now");
        proof {
            reveal_strlit("just now");
        }
    } else if d < 3600 {
        push_dec(&mut v, d / 60);
        crate::fmt::push_text(&mut v, " min ago");
        proof {
            reveal_strlit(" min ago");
        }
    } else if d < 86400 {
        push_dec(&mut v, d / 3600);
        crate::fmt::push_text(&mut v, " h ago");
        proof {
            reveal_strlit(" h ago");
        }
    } else {
        push_dec(&mut v, d / 86400);
        crate::fmt::push_text(&mut v, " d ago");
        proof {
            reveal_strlit(" d ago");
        }
    }
    assert(v@ =~= ago_spec(then as nat, now as nat));
    string_of(&v)
}

/// The value of the decimal digits `s[from..from + n]`, when all are digits.
pub open spec fn digits_value(s: Seq<char>, from: int, n: nat) -> Option<nat>
    decreases n,
{
    if n == 0 {
        Some(0)
    } else {
        match digits_value(s, from, (n - 1) as nat) {
            Some(v) => {
                let c = s[from + n - 1];
                if '0' <= c <= '9' {
                    Some(v * 10 + ((c as u32) - 48) as nat)
                } else {
                    None
                }
            },
            None => None,
        }
    }
}

/// Days from 1970-01-01 to the given date (proleptic Gregorian).
pub open spec fn days_from_civil(y: int, m: int, d: int) -> int {
    let y = if m <= 2 {
        y - 1
    } else {
        y
    };
    let era = y / 400;
    let yoe = y - era * 400;
    let mp = if m > 2 {
        m - 3
    } else {
        m + 9
    };
    let doy = (153 * mp + 2) / 5 + d - 1;
    let doe = yoe * 365 + yoe / 4 - yoe / 100 + doy;
    era * 146097 + doe - 719468
}

/// `parse_iso(s)`: the moment an `iso` text names. `None` for any text
/// not of that shape, or before the epoch.
pub open spec fn parse_iso_spec(s: Seq<char>) -> Option<nat> {
    if s.len() != 20 || s[4] != '-' || s[7] != '-' || s[10] != 'T' || s[13] != ':' || s[16]
        != ':' || s[19] != 'Z' {
        None
    } else {
        match (
            digits_value(s, 0, 4),
            digits_value(s, 5, 2),
            digits_value(s, 8, 2),
            digits_value(s, 11, 2),
            digits_value(s, 14, 2),
            digits_value(s, 17, 2),
        ) {
            (Some(y), Some(mo), Some(d), Some(h), Some(mi), Some(se)) => {
                if 1 <= mo <= 12 && 1 <= d <= 31 && h < 24 && mi < 60 && se < 60 {
                    let days = days_from_civil(y as int, mo as int, d as int);
                    if days >= 0 {
                        Some((days * 86400 + h * 3600 + mi * 60 + se) as nat)
                    } else {
                        None
                    }
                } else {
                    None
                }
            },
            _ => None,
        }
    }
}

fn digits_exec(s: &[char], from: usize, n: usize) -> (r: Option<u64>)
    requires
        from + n <= s.len(),
        n <= 4,
    ensures
        r.is_some() == digits_value(s@, from as int, n as nat).is_some(),
        r.is_some() ==> r.unwrap() as nat == digits_value(s@, from as int, n as nat).unwrap(),
        r.is_some() ==> r.unwrap() < 10000,
{
    let mut v: u64 = 0;
    let mut i: usize = 0;
    while i < n
        invariant
            from + n <= s.len(),
            n <= 4,
            i <= n,
            digits_value(s@, from as int, i as nat) == Some(v as nat),
            v < 10000,
            i <= 4,
            v < pow10(i as nat),
        decreases n - i,
    {
        let c = s[from + i];
        if !('0' <= c && c <= '9') {
            proof {
                lemma_digits_none(s@, from as int, (i + 1) as nat, n as nat);
            }
            return None;
        }
        let dv = (c as u32 - 48) as u64;
        proof {
            assert(pow10((i + 1) as nat) == 10 * pow10(i as nat));
            assert(v * 10 + dv < pow10((i + 1) as nat)) by (nonlinear_arith)
                requires
                    v < pow10(i as nat),
                    dv < 10,
                    pow10((i + 1) as nat) == 10 * pow10(i as nat),
            ;
            assert(pow10(4) == 10000) by {
                reveal_with_fuel(pow10, 5);
            }
            lemma_pow10_mono((i + 1) as nat, 4);
        }
        v = v * 10 + dv;
        i += 1;
    }
    Some(v)
}

pub open spec fn pow10(n: nat) -> nat
    decreases n,
{
    if n == 0 {
        1
    } else {
        10 * pow10((n - 1) as nat)
    }
}

proof fn lemma_pow10_mono(a: nat, b: nat)
    requires
        a <= b,
    ensures
        pow10(a) <= pow10(b),
    decreases b,
{
    if a < b {
        lemma_pow10_mono(a, (b - 1) as nat);
    }
}

proof fn lemma_digits_none(s: Seq<char>, from: int, k: nat, n: nat)
    requires
        k <= n,
        digits_value(s, from, k).is_none(),
    ensures
        digits_value(s, from, n).is_none(),
    decreases n - k,
{
    if k < n {
        lemma_digits_none(s, from, k + 1, n);
    }
}

fn days_from_civil_exec(y: u64, m: u64, d: u64) -> (r: Option<u64>)
    requires
        1 <= m <= 12,
        1 <= d <= 31,
        y < 10000,
    ensures
        r.is_some() == (days_from_civil(y as int, m as int, d as int) >= 0),
        r.is_some() ==> r.unwrap() as int == days_from_civil(y as int, m as int, d as int),
{
    let yy: i64 = if m <= 2 {
        y as i64 - 1
    } else {
        y as i64
    };
    // `yy` is at least -1: the era arithmetic below floors as the spec does.
    let era: i64 = if yy >= 0 {
        yy / 400
    } else {
        -1
    };
    let yoe: i64 = yy - era * 400;
    let mp: i64 = if m > 2 {
        m as i64 - 3
    } else {
        m as i64 + 9
    };
    let doy: i64 = (153 * mp + 2) / 5 + d as i64 - 1;
    let doe: i64 = yoe * 365 + yoe / 4 - yoe / 100 + doy;
    let days: i64 = era * 146097 + doe - 719468;
    proof {
        let ys: int = if m <= 2 {
            y - 1
        } else {
            y as int
        };
        assert(ys == yy);
        assert(era == ys / 400);
    }
    if days >= 0 {
        Some(days as u64)
    } else {
        None
    }
}

pub fn parse_iso_chars(s: &[char]) -> (r: Option<u64>)
    ensures
        r.is_some() == parse_iso_spec(s@).is_some(),
        r.is_some() ==> r.unwrap() as nat == parse_iso_spec(s@).unwrap(),
{
    if s.len() != 20 || s[4] != '-' || s[7] != '-' || s[10] != 'T' || s[13] != ':' || s[16] != ':'
        || s[19] != 'Z' {
        return None;
    }
    let y = digits_exec(s, 0, 4);
    let mo = digits_exec(s, 5, 2);
    let d = digits_exec(s, 8, 2);
    let h = digits_exec(s, 11, 2);
    let mi = digits_exec(s, 14, 2);
    let se = digits_exec(s, 17, 2);
    match (y, mo, d, h, mi, se) {
        (Some(y), Some(mo), Some(d), Some(h), Some(mi), Some(se)) => {
            if 1 <= mo && mo <= 12 && 1 <= d && d <= 31 && h < 24 && mi < 60 && se < 60 {
                match days_from_civil_exec(y, mo, d) {
                    Some(days) => {
                        proof {
                            assert(days <= 4_000_000);
                        }
                        Some(days * 86400 + h * 3600 + mi * 60 + se)
                    },
                    None => None,
                }
            } else {
                None
            }
        },
        _ => None,
    }
}

pub fn parse_iso(s: &str) -> (r: Option<u64>)
    ensures
        r.is_some() == parse_iso_spec(s@).is_some(),
        r.is_some() ==> r.unwrap() as nat == parse_iso_spec(s@).unwrap(),
{
    let v = chars_of(s);
    parse_iso_chars(&v)
}


/// `SystemTime::now()` as whole seconds since the epoch. What it returns
/// depends on the clock: nothing is claimed of it.
#[verifier::external_body]
pub(crate) fn now_secs() -> (t: u64) {
    std::time::SystemTime::now().duration_since(std::time::UNIX_EPOCH).map_or(0, |d| d.as_secs())
}

/// The current moment as `iso` writes it.
pub fn now_iso() -> (r: String)
    ensures
        exists|t: nat| r@ == iso_spec(t),
{
    let t = now_secs();
    iso(t)
}

} // verus!

