//! How long each hook took, so the promise that relay never slows the
//! harness down is a number `relay status` shows rather than a claim.
//! Measured inside relay, from reading the event to replying; process
//! start comes on top and is a few milliseconds.
//!
//! Appending to the timings file and reading it back is the caller's;
//! the line format and the summary are here.

use vstd::prelude::*;

use crate::fmt::{dec, push_dec, push_text};
use crate::sort::{ascending, sort_u64};
use crate::text::{chars_lt, chars_of, lines, lines_of, seq_lt, split_char, split_on, str_eq, string_of};

verus! {

/// Hook events grouped by the budget they must meet.
#[derive(Debug, Clone, Copy, PartialEq, Eq, PartialOrd, Ord, Structural)]
pub enum Group {
    /// Runs on every tool call or prompt: must be instant.
    PerCall,
    /// Puts the brief in front of the model before the first reply.
    SessionStart,
    /// Builds the handoff after the session; the harness gives it seconds.
    SessionEnd,
}

pub open spec fn group_of(event: Seq<char>) -> Option<Group> {
    if event == "PreToolUse"@ || event == "PostToolUse"@ || event == "UserPromptSubmit"@ || event == "Stop"@ {
        Some(Group::PerCall)
    } else if event == "SessionStart"@ {
        Some(Group::SessionStart)
    } else if event == "SessionEnd"@ || event == "PreCompact"@ {
        Some(Group::SessionEnd)
    } else {
        None
    }
}

/// The whole length of a duration in nanoseconds, as `Duration::as_nanos`
/// gives it. A `Duration` is its seconds and nanoseconds, so this number
/// fixes its value.
pub uninterp spec fn nanos_of(d: std::time::Duration) -> nat;

/// `Duration::from_micros`. Claims: the duration is `m` microseconds,
/// that is `m * 1000` nanoseconds.
#[verifier::external_body]
fn from_micros(m: u64) -> (d: std::time::Duration)
    ensures
        nanos_of(d) == m * 1000,
{
    std::time::Duration::from_micros(m)
}

pub open spec fn budget_micros(g: Group) -> nat {
    match g {
        Group::PerCall | Group::SessionStart => 50_000,
        Group::SessionEnd => 2_000_000,
    }
}

impl Group {
    pub fn of(event: &str) -> (r: Option<Group>)
        ensures
            r == group_of(event@),
    {
        if str_eq(event, "PreToolUse") || str_eq(event, "PostToolUse") || str_eq(event, "UserPromptSubmit")
            || str_eq(event, "Stop") {
            Some(Group::PerCall)
        } else if str_eq(event, "SessionStart") {
            Some(Group::SessionStart)
        } else if str_eq(event, "SessionEnd") || str_eq(event, "PreCompact") {
            Some(Group::SessionEnd)
        } else {
            None
        }
    }

    /// What a hook of the group may take: 50 ms, or 2 s at session end.
    pub fn budget(self) -> (r: std::time::Duration)
        ensures
            nanos_of(r) == budget_micros(self) * 1000,
    {
        match self {
            Group::PerCall | Group::SessionStart => from_micros(50_000),
            Group::SessionEnd => from_micros(2_000_000),
        }
    }
}

#[derive(Debug, PartialEq, Eq)]
pub struct Stat {
    pub group: Group,
    pub calls: usize,
    pub p95: std::time::Duration,
    pub max: std::time::Duration,
}

/// One line of the timings file: when, which event, how many
/// microseconds it took.
pub open spec fn line_spec(at: Seq<char>, event: Seq<char>, micros: nat) -> Seq<char> {
    at + " "@ + event + " "@ + dec(micros)
}

pub fn line(at: &str, event: &str, micros: u64) -> (r: String)
    ensures
        r@ == line_spec(at@, event@, micros as nat),
{
    let mut v = chars_of(at);
    push_text(&mut v, " ");
    push_text(&mut v, event);
    push_text(&mut v, " ");
    push_dec(&mut v, micros);
    string_of(&v)
}

// ---------------------------------------------------------------------------
// Reading the file back
// ---------------------------------------------------------------------------

pub open spec fn digit_val(c: char) -> nat {
    ((c as u32) - 48) as nat
}

/// The value of the decimal digits `s`, or `None` for anything else.
pub open spec fn digits(s: Seq<char>) -> Option<nat>
    decreases s.len(),
{
    if s.len() == 0 {
        None
    } else if !('0' <= s.last() <= '9') {
        None
    } else if s.len() == 1 {
        Some(digit_val(s.last()))
    } else {
        match digits(s.drop_last()) {
            Some(v) => Some(v * 10 + digit_val(s.last())),
            None => None,
        }
    }
}

/// `str::parse::<u64>`: decimal digits after an optional `+`, within
/// range.
pub open spec fn parse_u64_spec(s: Seq<char>) -> Option<u64> {
    let d = if s.len() > 0 && s[0] == '+' {
        digits(s.drop_first())
    } else {
        digits(s)
    };
    match d {
        Some(v) => if v <= u64::MAX {
            Some(v as u64)
        } else {
            None
        },
        None => None,
    }
}

proof fn lemma_digits_grow(s: Seq<char>)
    requires
        s.len() > 1,
        digits(s) is Some,
    ensures
        digits(s.drop_last()) is Some,
        digits(s)->0 >= digits(s.drop_last())->0,
{
}

pub(crate) fn parse_u64(s: &[char]) -> (r: Option<u64>)
    ensures
        r == parse_u64_spec(s@),
{
    let start: usize = if s.len() > 0 && s[0] == '+' {
        1
    } else {
        0
    };
    let ghost body = if s@.len() > 0 && s@[0] == '+' {
        s@.drop_first()
    } else {
        s@
    };
    proof {
        assert(body =~= s@.skip(start as int));
    }
    if start >= s.len() {
        proof {
            assert(body.len() == 0);
        }
        return None;
    }
    let mut v: u64 = 0;
    let mut i = start;
    while i < s.len()
        invariant
            start < s@.len(),
            body =~= s@.skip(start as int),
            body == (if s@.len() > 0 && s@[0] == '+' {
                s@.drop_first()
            } else {
                s@
            }),
            start <= i <= s@.len(),
            i > start ==> digits(body.take(i - start)) == Some(v as nat),
            i == start ==> v == 0,
        decreases s@.len() - i,
    {
        let c = s[i];
        proof {
            assert(body.take(i - start + 1).last() == c);
            assert(body.take(i - start + 1).drop_last() =~= body.take(i - start));
        }
        if !('0' <= c && c <= '9') {
            proof {
                lemma_digits_none(body, i - start);
            }
            return None;
        }
        let d = (c as u32 - 48) as u64;
        if v > (u64::MAX - d) / 10 {
            proof {
                lemma_digits_over(body, i - start, v as nat, d as nat);
            }
            return None;
        }
        v = v * 10 + d;
        i += 1;
    }
    proof {
        assert(body.take(s@.len() - start) =~= body);
    }
    Some(v)
}

/// A digit string with a bad character has no value, nor does any
/// longer one that starts with it.
proof fn lemma_digits_none(body: Seq<char>, k: int)
    requires
        0 <= k < body.len(),
        !('0' <= body[k] <= '9'),
    ensures
        parse_digits_fail(body),
{
    lemma_digits_prefix_none(body, k + 1, body.len() as int);
    assert(body.take(body.len() as int) =~= body);
}

pub open spec fn parse_digits_fail(body: Seq<char>) -> bool {
    digits(body) is None
}

proof fn lemma_digits_prefix_none(body: Seq<char>, k: int, n: int)
    requires
        1 <= k <= n <= body.len(),
        !('0' <= body[k - 1] <= '9'),
    ensures
        digits(body.take(n)) is None,
    decreases n,
{
    assert(body.take(n).last() == body[n - 1]);
    if n > k {
        assert(body.take(n).drop_last() =~= body.take(n - 1));
        lemma_digits_prefix_none(body, k, n - 1);
    }
    if n == body.len() {
        assert(body.take(n) =~= body);
    }
}

/// Digits whose value passes `u64::MAX` keep passing it as more follow,
/// or stop being digits.
proof fn lemma_digits_over(body: Seq<char>, k: int, v: nat, d: nat)
    requires
        0 <= k < body.len(),
        k > 0 ==> digits(body.take(k)) == Some(v),
        k == 0 ==> v == 0,
        '0' <= body[k] <= '9',
        d == digit_val(body[k]),
        d <= 9,
        v > (u64::MAX - d) / 10,
    ensures
        parse_u64_over(body),
{
    if k == 0 {
        assert(false) by (nonlinear_arith)
            requires
                v == 0,
                d <= 9,
                v > (u64::MAX - d) / 10,
        ;
    }
    assert(body.take(k + 1).drop_last() =~= body.take(k));
    assert(body.take(k + 1).last() == body[k]);
    assert(v * 10 + d > u64::MAX) by (nonlinear_arith)
        requires
            v > (u64::MAX - d) / 10,
            d <= 9,
    ;
    lemma_digits_big(body, k + 1, body.len() as int);
    assert(body.take(body.len() as int) =~= body);
}

pub open spec fn parse_u64_over(body: Seq<char>) -> bool {
    match digits(body) {
        Some(x) => x > u64::MAX,
        None => true,
    }
}

proof fn lemma_digits_big(body: Seq<char>, k: int, n: int)
    requires
        1 <= k <= n <= body.len(),
        match digits(body.take(k)) {
            Some(x) => x > u64::MAX,
            None => true,
        },
    ensures
        parse_u64_over(body.take(n)),
    decreases n,
{
    if n > k {
        lemma_digits_big(body, k, n - 1);
        assert(body.take(n).drop_last() =~= body.take(n - 1));
        assert(body.take(n).last() == body[n - 1]);
        match digits(body.take(n - 1)) {
            Some(x) => {
                assert(x * 10 + digit_val(body[n - 1]) >= x) by (nonlinear_arith)
                    requires
                        x >= 0,
                ;
            },
            None => {},
        }
    }
    if n == body.len() {
        assert(body.take(n) =~= body);
    }
}

/// The fields of a line split at spaces: when, event, microseconds.
pub open spec fn sample_of(l: Seq<char>, from: Seq<char>) -> Option<(Group, u64)> {
    let parts = split_on(l, ' ');
    if parts.len() < 3 {
        None
    } else {
        match parse_u64_spec(parts[2]) {
            None => None,
            Some(m) => if !seq_lt(parts[0], from) {
                match group_of(parts[1]) {
                    Some(g) => Some((g, m)),
                    None => None,
                }
            } else {
                None
            },
        }
    }
}

/// The times of group `g` in the window, in file order.
pub open spec fn times_of(ls: Seq<Seq<char>>, from: Seq<char>, g: Group) -> Seq<u64>
    decreases ls.len(),
{
    if ls.len() == 0 {
        seq![]
    } else {
        let rest = times_of(ls.drop_last(), from, g);
        match sample_of(ls.last(), from) {
            Some((h, m)) => if h == g {
                rest.push(m)
            } else {
                rest
            },
            None => rest,
        }
    }
}

/// Index of the 95th percentile among `n` sorted times.
pub open spec fn p95_index(n: nat) -> nat {
    let up = (n * 95 + 99) / 100;
    if up >= 1 {
        (up - 1) as nat
    } else {
        0
    }
}

/// What a summary says of a group: how many calls, the 95th percentile
/// and the slowest, in nanoseconds (each time is recorded in
/// microseconds); nothing for a group with no calls.
pub open spec fn stat_spec(times: Seq<u64>) -> Option<(nat, nat, nat)> {
    let s = ascending(times);
    if s.len() == 0 {
        None
    } else {
        Some((s.len(), s[p95_index(s.len()) as int] as nat * 1000, s.last() as nat * 1000))
    }
}

pub open spec fn stat_view(s: Stat) -> (Group, nat, nat, nat) {
    (s.group, s.calls as nat, nanos_of(s.p95), nanos_of(s.max))
}

/// The groups, in `Group` order, with what their summary says.
pub open spec fn summary_spec(text: Seq<char>, from: Seq<char>) -> Seq<(Group, nat, nat, nat)> {
    let ls = lines_of(text);
    let one = |g: Group|
        match stat_spec(times_of(ls, from, g)) {
            Some((c, p, m)) => seq![(g, c, p, m)],
            None => Seq::<(Group, nat, nat, nat)>::empty(),
        };
    one(Group::PerCall) + one(Group::SessionStart) + one(Group::SessionEnd)
}

fn sample_exec(l: &[char], from: &[char]) -> (r: Option<(Group, u64)>)
    ensures
        r == sample_of(l@, from@),
{
    let parts = split_char(l, ' ');
    if parts.len() < 3 {
        return None;
    }
    proof {
        assert(parts.deep_view()[0] == parts@[0]@);
        assert(parts.deep_view()[1] == parts@[1]@);
        assert(parts.deep_view()[2] == parts@[2]@);
    }
    match parse_u64(&parts[2]) {
        None => None,
        Some(m) => {
            if !chars_lt(&parts[0], from) {
                let ev = string_of(&parts[1]);
                match Group::of(ev.as_str()) {
                    Some(g) => Some((g, m)),
                    None => None,
                }
            } else {
                None
            }
        },
    }
}

fn times_exec(ls: &Vec<Vec<char>>, from: &[char], g: Group) -> (r: Vec<u64>)
    ensures
        r@ == times_of(ls.deep_view(), from@, g),
{
    let ghost lv = ls.deep_view();
    let mut out: Vec<u64> = Vec::new();
    let mut i: usize = 0;
    proof {
        assert(lv.take(0) =~= Seq::<Seq<char>>::empty());
    }
    while i < ls.len()
        invariant
            lv == ls.deep_view(),
            i <= ls@.len(),
            out@ == times_of(lv.take(i as int), from@, g),
        decreases ls@.len() - i,
    {
        proof {
            assert(lv.take(i + 1).drop_last() =~= lv.take(i as int));
            assert(lv.take(i + 1).last() == ls@[i as int]@);
        }
        match sample_exec(&ls[i], from) {
            Some((h, m)) => {
                if h == g {
                    out.push(m);
                }
            },
            None => {},
        }
        i += 1;
    }
    proof {
        assert(lv.take(ls@.len() as int) =~= lv);
    }
    out
}

/// `micros` sorted ascending.
fn stat(group: Group, times: &Vec<u64>) -> (r: Option<Stat>)
    ensures
        match r {
            Some(s) => stat_spec(times@) == Some((stat_view(s).1, stat_view(s).2, stat_view(s).3)) && s.group == group,
            None => stat_spec(times@) is None,
        },
{
    let micros = sort_u64(times);
    if micros.len() == 0 {
        return None;
    }
    let n = micros.len();
    let max = micros[n - 1];
    let up = ((n as u128) * 95 + 99) / 100;
    let k: usize = if up >= 1 {
        (up - 1) as usize
    } else {
        0
    };
    proof {
        assert(up <= n as u128) by (nonlinear_arith)
            requires
                up == ((n as u128) * 95 + 99) / 100,
                n >= 1,
        ;
    }
    let p95 = micros[k];
    Some(Stat { group, calls: n, p95: from_micros(p95), max: from_micros(max) })
}

/// Hooks timed at or after `from`, per group, in `Group` order, from the
/// timings file's text.
pub fn summarize(text: &str, from: &str) -> (r: Vec<Stat>)
    ensures
        r@.map_values(|s: Stat| stat_view(s)) == summary_spec(text@, from@),
{
    let ls = lines(&chars_of(text));
    let f = chars_of(from);
    let mut out: Vec<Stat> = Vec::new();
    let gs = [Group::PerCall, Group::SessionStart, Group::SessionEnd];
    let ghost lv = lines_of(text@);
    let ghost one = |g: Group|
        match stat_spec(times_of(lv, from@, g)) {
            Some((c, p, m)) => seq![(g, c, p, m)],
            None => Seq::<(Group, nat, nat, nat)>::empty(),
        };
    let mut k: usize = 0;
    proof {
        assert(out@.map_values(|s: Stat| stat_view(s)) =~= Seq::<(Group, nat, nat, nat)>::empty());
    }
    while k < 3
        invariant
            ls.deep_view() == lv,
            f@ == from@,
            gs@ == seq![Group::PerCall, Group::SessionStart, Group::SessionEnd],
            one == (|g: Group|
                match stat_spec(times_of(lv, from@, g)) {
                    Some((c, p, m)) => seq![(g, c, p, m)],
                    None => Seq::<(Group, nat, nat, nat)>::empty(),
                }),
            k <= 3,
            out@.map_values(|s: Stat| stat_view(s)) == if k == 0 {
                Seq::<(Group, nat, nat, nat)>::empty()
            } else if k == 1 {
                one(Group::PerCall)
            } else if k == 2 {
                one(Group::PerCall) + one(Group::SessionStart)
            } else {
                one(Group::PerCall) + one(Group::SessionStart) + one(Group::SessionEnd)
            },
        decreases 3 - k,
    {
        let g = gs[k];
        let times = times_exec(&ls, &f, g);
        let ghost before = out@.map_values(|s: Stat| stat_view(s));
        match stat(g, &times) {
            Some(s) => {
                out.push(s);
                proof {
                    assert(out@.map_values(|s: Stat| stat_view(s)) =~= before + one(g));
                }
            },
            None => {
                proof {
                    assert(out@.map_values(|s: Stat| stat_view(s)) =~= before + one(g));
                }
            },
        }
        k += 1;
    }
    out
}

} // verus!
