//! Re-reads. An agent reads the same file again and again: after an edit,
//! to check a line, or because a subagent does not know its parent read
//! it. Each time the whole file lands in the context again. relay keeps,
//! per session and per subagent, the content hash of every file range it
//! read; a re-read of an unchanged range becomes a one-line note, and one
//! after a change becomes the diff since that read.
//!
//! Under `<local>/reads/`: one small JSON per session, and the text of
//! each read keyed by its hash, so identical reads are stored once. The
//! caller hashes, stores and diffs; which reads count, under what key,
//! and what the agent is told is decided here. A compaction forgets it
//! all: the earlier read may no longer be in the context.

use vstd::prelude::*;

use crate::fmt::{dec, push_dec, push_text};
use crate::limits::DEDUP_MAX_BYTES;
use crate::paths::{join, join_spec, Paths};
use crate::text::{
    byte_len, chars_of, is_ascii_digit, lines, lines_of, occurs_at, occurs_at_exec, slice, string_of, str_eq, trim,
    trim_spec, utf8_len,
};
use crate::timings::{parse_u64, parse_u64_spec};

verus! {

/// What to tell the agent about a read it just made.
#[derive(Debug, PartialEq, Eq)]
pub enum Verdict {
    /// First read of this range here, or nothing useful to say.
    Fresh,
    /// The same text it already has, read `ago`.
    Unchanged { ago: String },
    /// What changed since it read the range `ago`, as a unified diff.
    Changed { ago: String, diff: String },
}

pub enum VerdictV {
    Fresh,
    Unchanged(Seq<char>),
    Changed(Seq<char>, Seq<char>),
}

impl Verdict {
    pub open spec fn view(&self) -> VerdictV {
        match self {
            Verdict::Fresh => VerdictV::Fresh,
            Verdict::Unchanged { ago } => VerdictV::Unchanged(ago@),
            Verdict::Changed { ago, diff } => VerdictV::Changed(ago@, diff@),
        }
    }
}

// ---------------------------------------------------------------------------
// Where reads are kept
// ---------------------------------------------------------------------------

/// The key of a read among a session's reads: who read which range of
/// which file.
pub open spec fn key_spec(agent: Seq<char>, file: Seq<char>, range: Seq<char>) -> Seq<char> {
    agent + "|"@ + file + "|"@ + range
}

pub fn key(agent: &str, file: &str, range: &str) -> (r: String)
    ensures
        r@ == key_spec(agent@, file@, range@),
{
    let mut v = chars_of(agent);
    push_text(&mut v, "|");
    push_text(&mut v, file);
    push_text(&mut v, "|");
    push_text(&mut v, range);
    string_of(&v)
}

pub open spec fn safe_char(c: char) -> char {
    if ('a' <= c <= 'z') || ('A' <= c <= 'Z') || ('0' <= c <= '9') || c == '-' || c == '_' {
        c
    } else {
        '_'
    }
}

/// A session id as a file name: ASCII letters, digits, `-` and `_` kept,
/// anything else `_`.
pub open spec fn safe_name(session: Seq<char>) -> Seq<char> {
    session.map_values(|c: char| safe_char(c))
}

pub open spec fn reads_dir_spec(local: Seq<char>) -> Seq<char> {
    join_spec(local, "reads"@)
}

/// The file that holds one session's reads.
pub open spec fn session_file_spec(local: Seq<char>, session: Seq<char>) -> Seq<char> {
    join_spec(reads_dir_spec(local), safe_name(session) + ".json"@)
}

/// The stored text of the read whose hash is `hash`.
pub open spec fn blob_file_spec(local: Seq<char>, hash: Seq<char>) -> Seq<char> {
    join_spec(join_spec(reads_dir_spec(local), "blobs"@), hash + ".txt"@)
}

pub fn reads_dir(paths: &Paths) -> (r: String)
    ensures
        r@ == reads_dir_spec(paths.local@),
{
    join(paths.local.as_str(), "reads")
}

pub fn session_file(paths: &Paths, session: &str) -> (r: String)
    ensures
        r@ == session_file_spec(paths.local@, session@),
{
    let s = chars_of(session);
    let mut v: Vec<char> = Vec::new();
    let mut i: usize = 0;
    while i < s.len()
        invariant
            i <= s@.len(),
            v@ == safe_name(s@.take(i as int)),
        decreases s@.len() - i,
    {
        let c = s[i];
        let k = if ('a' <= c && c <= 'z') || ('A' <= c && c <= 'Z') || ('0' <= c && c <= '9') || c == '-'
            || c == '_' {
            c
        } else {
            '_'
        };
        v.push(k);
        proof {
            assert(safe_name(s@.take(i + 1)) =~= safe_name(s@.take(i as int)).push(safe_char(s@[i as int])));
        }
        i += 1;
    }
    proof {
        assert(s@.take(s@.len() as int) =~= s@);
    }
    push_text(&mut v, ".json");
    let dir = reads_dir(paths);
    join(dir.as_str(), string_of(&v).as_str())
}

pub fn blob_file(paths: &Paths, hash: &str) -> (r: String)
    ensures
        r@ == blob_file_spec(paths.local@, hash@),
{
    let dir = reads_dir(paths);
    let blobs = join(dir.as_str(), "blobs");
    let mut v = chars_of(hash);
    push_text(&mut v, ".txt");
    join(blobs.as_str(), string_of(&v).as_str())
}


// ---------------------------------------------------------------------------
// The name of a stored text
// ---------------------------------------------------------------------------

pub const FNV_OFFSET: u64 = 0xcbf2_9ce4_8422_2325;
pub const FNV_PRIME: u64 = 0x0100_0000_01b3;

/// FNV-1a over `bs`: 64 bits that name a stored text (not a security
/// boundary).
pub open spec fn fnv(bs: Seq<u8>) -> u64
    decreases bs.len(),
{
    if bs.len() == 0 {
        FNV_OFFSET
    } else {
        (fnv(bs.drop_last()) ^ (bs.last() as u64)).wrapping_mul(FNV_PRIME)
    }
}

pub open spec fn hex_digit(d: u64) -> char {
    if d < 10 {
        ((48 + d) as u8) as char
    } else {
        ((87 + d) as u8) as char
    }
}

/// The sixteen lower-case hex digits of `h`, most significant first.
pub open spec fn hex16(h: u64) -> Seq<char> {
    Seq::new(16, |k: int| hex_digit((h >> ((60 - 4 * k) as u64)) & 0xf))
}

/// The name under which a read's text is stored.
pub fn content_hash(bytes: &[u8]) -> (r: String)
    ensures
        r@ == hex16(fnv(bytes@)),
{
    let mut h: u64 = FNV_OFFSET;
    let mut i: usize = 0;
    while i < bytes.len()
        invariant
            i <= bytes@.len(),
            h == fnv(bytes@.take(i as int)),
        decreases bytes@.len() - i,
    {
        proof {
            assert(bytes@.take(i + 1).drop_last() =~= bytes@.take(i as int));
        }
        h = (h ^ (bytes[i] as u64)).wrapping_mul(FNV_PRIME);
        i += 1;
    }
    proof {
        assert(bytes@.take(bytes@.len() as int) =~= bytes@);
    }
    let mut v: Vec<char> = Vec::new();
    let mut k: u64 = 0;
    while k < 16
        invariant
            k <= 16,
            v@ =~= hex16(h).take(k as int),
        decreases 16 - k,
    {
        let sh: u64 = 60 - 4 * k;
        let d = (h >> sh) & 0xf;
        assert(d < 16) by (bit_vector)
            requires
                d == (h >> sh) & 0xf,
        ;
        assert(sh == ((60 - 4 * (k as int)) as u64));
        let c = if d < 10 {
            (48 + d as u8) as char
        } else {
            (87 + d as u8) as char
        };
        v.push(c);
        proof {
            assert(hex16(h)[k as int] == hex_digit(d));
            assert(hex16(h).take(k + 1) =~= hex16(h).take(k as int).push(c));
        }
        k += 1;
    }
    string_of(&v)
}

// ---------------------------------------------------------------------------
// Which reads count
// ---------------------------------------------------------------------------

/// A read worth remembering: not blank, and small enough that keeping
/// its text is cheap.
pub open spec fn tracked_spec(content: Seq<char>) -> bool {
    utf8_len(content) <= DEDUP_MAX_BYTES && trim_spec(content).len() > 0
}

pub fn worth_tracking(content: &str) -> (r: bool)
    ensures
        r == tracked_spec(content@),
{
    let c = chars_of(content);
    byte_len(&c) <= DEDUP_MAX_BYTES as u128 && trim(&c).len() > 0
}

// ---------------------------------------------------------------------------
// Hunk headers
// ---------------------------------------------------------------------------

/// The run of ASCII digits of `s` that starts at `i`: its length.
pub open spec fn digit_run(s: Seq<char>, i: int) -> nat
    decreases s.len() - i,
{
    if 0 <= i < s.len() && is_ascii_digit(s[i]) {
        1 + digit_run(s, i + 1)
    } else {
        0
    }
}

/// Where an optional `,count` that starts at `e` ends.
pub open spec fn count_end(s: Seq<char>, e: int) -> int {
    if 0 <= e < s.len() && s[e] == ',' && digit_run(s, e + 1) > 0 {
        e + 1 + digit_run(s, e + 1)
    } else {
        e
    }
}

/// A unified diff hunk header, `@@ -a[,n] +b[,m] @@` and what follows
/// it on the line: the digits of `a`, the `,n` (or nothing), the digits of
/// `b`, the `,m` (or nothing), and the rest of the line.
pub open spec fn hunk_header(l: Seq<char>) -> Option<(Seq<char>, Seq<char>, Seq<char>, Seq<char>, Seq<char>)> {
    let n1 = digit_run(l, 4);
    let e1 = 4 + n1 as int;
    let c1 = count_end(l, e1);
    let n3 = digit_run(l, c1 + 2);
    let e3 = c1 + 2 + n3;
    let c3 = count_end(l, e3);
    if occurs_at(l, "@@ -"@, 0) && n1 > 0 && occurs_at(l, " +"@, c1) && n3 > 0 && occurs_at(l, " @@"@, c3) {
        Some((l.subrange(4, e1), l.subrange(e1, c1), l.subrange(c1 + 2, e3), l.subrange(e3, c3), l.skip(c3 + 3)))
    } else {
        None
    }
}

/// A line number of a header as `str::parse::<usize>` reads it, 0 when it
/// does not fit.
pub open spec fn line_no(digits: Seq<char>) -> nat {
    match parse_u64_spec(digits) {
        Some(v) => if v <= usize::MAX {
            v as nat
        } else {
            0
        },
        None => 0,
    }
}

/// The line with its hunk header's line numbers moved by `by`.
pub open spec fn shifted_line(l: Seq<char>, by: nat) -> Seq<char> {
    match hunk_header(l) {
        Some((a, ac, b, bc, rest)) => "@@ -"@ + dec(line_no(a) + by) + ac + " +"@ + dec(line_no(b) + by) + bc
            + " @@"@ + rest,
        None => l,
    }
}

/// The moved line numbers fit in a `usize`.
pub open spec fn line_fits(l: Seq<char>, by: nat) -> bool {
    match hunk_header(l) {
        Some((a, ac, b, bc, rest)) => line_no(a) + by <= usize::MAX && line_no(b) + by <= usize::MAX,
        None => true,
    }
}

pub open spec fn hunks_fit(diff: Seq<char>, by: nat) -> bool {
    by == 0 || forall|i: int| 0 <= i < lines_of(diff).len() ==> line_fits(#[trigger] lines_of(diff)[i], by)
}

/// Hunk headers count from the first line of the range; moved by `by`
/// they name file lines.
pub open spec fn shift_hunks_spec(diff: Seq<char>, by: nat) -> Seq<char> {
    if by == 0 {
        diff
    } else {
        crate::text::join_spec(lines_of(diff).map_values(|l: Seq<char>| shifted_line(l, by)), "\n"@)
    }
}

fn digit_run_exec(s: &[char], i: usize) -> (n: usize)
    ensures
        n == digit_run(s@, i as int),
        i + n <= s@.len() || n == 0,
        i + n <= usize::MAX,
{
    let mut j = i;
    while j < s.len() && '0' <= s[j] && s[j] <= '9'
        invariant
            i <= j,
            j <= s@.len() || j == i,
            digit_run(s@, i as int) == (j - i) + digit_run(s@, j as int),
        decreases s@.len() - j,
    {
        j += 1;
    }
    j - i
}

fn count_end_exec(s: &[char], e: usize) -> (r: usize)
    requires
        e <= s@.len(),
    ensures
        r == count_end(s@, e as int),
        e <= r <= s@.len(),
{
    if e < s.len() && s[e] == ',' {
        let n = digit_run_exec(s, e + 1);
        if n > 0 {
            return e + 1 + n;
        }
    }
    e
}

/// The header's pieces by position: ends of `a`, `,n`, `b` and `,m`.
fn header_at(l: &[char]) -> (r: Option<(usize, usize, usize, usize)>)
    ensures
        match r {
            Some((e1, c1, e3, c3)) => {
                &&& hunk_header(l@) is Some
                &&& 4 <= e1 <= c1 && c1 + 2 <= e3 <= c3 && c3 + 3 <= l@.len() && c3 + 3 <= l.len()
                &&& hunk_header(l@)->0 == (l@.subrange(4, e1 as int), l@.subrange(e1 as int, c1 as int), l@.subrange(
                    c1 + 2,
                    e3 as int,
                ), l@.subrange(e3 as int, c3 as int), l@.skip(c3 + 3))
            },
            None => hunk_header(l@) is None,
        },
{
    let open = chars_of("@@ -");
    let plus = chars_of(" +");
    let close = chars_of(" @@");
    proof {
        reveal_strlit("@@ -");
        reveal_strlit(" +");
        reveal_strlit(" @@");
    }
    let n = l.len();
    assert(n == l@.len());
    if !occurs_at_exec(l, &open, 0) {
        return None;
    }
    let n1 = digit_run_exec(l, 4);
    if n1 == 0 {
        return None;
    }
    let e1 = 4 + n1;
    let c1 = count_end_exec(l, e1);
    if !occurs_at_exec(l, &plus, c1) {
        return None;
    }
    let n3 = digit_run_exec(l, c1 + 2);
    if n3 == 0 {
        return None;
    }
    let e3 = c1 + 2 + n3;
    let c3 = count_end_exec(l, e3);
    if !occurs_at_exec(l, &close, c3) {
        return None;
    }
    Some((e1, c1, e3, c3))
}

fn line_no_exec(d: &[char]) -> (r: usize)
    ensures
        r == line_no(d@),
{
    match parse_u64(d) {
        Some(v) => if v <= usize::MAX as u64 {
            v as usize
        } else {
            0
        },
        None => 0,
    }
}

fn shift_line(l: &[char], by: usize) -> (r: Vec<char>)
    requires
        line_fits(l@, by as nat),
    ensures
        r@ == shifted_line(l@, by as nat),
{
    match header_at(l) {
        None => slice(l, 0, l.len()),
        Some((e1, c1, e3, c3)) => {
            let a = line_no_exec(&slice(l, 4, e1));
            let b = line_no_exec(&slice(l, c1 + 2, e3));
            let mut v = chars_of("@@ -");
            push_dec(&mut v, (a + by) as u64);
            let ac = slice(l, e1, c1);
            crate::fmt::push_all(&mut v, &ac);
            push_text(&mut v, " +");
            push_dec(&mut v, (b + by) as u64);
            let bc = slice(l, e3, c3);
            crate::fmt::push_all(&mut v, &bc);
            push_text(&mut v, " @@");
            let rest = slice(l, c3 + 3, l.len());
            crate::fmt::push_all(&mut v, &rest);
            proof {
                assert(l@.skip(c3 + 3) =~= l@.subrange(c3 + 3, l@.len() as int));
            }
            v
        },
    }
}

/// Hunk headers count from the range; move them to file lines.
pub fn shift_hunks(diff: &str, by: usize) -> (r: String)
    requires
        hunks_fit(diff@, by as nat),
    ensures
        r@ == shift_hunks_spec(diff@, by as nat),
{
    if by == 0 {
        return diff.to_string();
    }
    let ls = lines(&chars_of(diff));
    let ghost lv = ls.deep_view();
    let mut out: Vec<Vec<char>> = Vec::new();
    let mut i: usize = 0;
    while i < ls.len()
        invariant
            lv == ls.deep_view(),
            lv == lines_of(diff@),
            by > 0,
            hunks_fit(diff@, by as nat),
            i <= ls@.len(),
            out.deep_view() == lv.take(i as int).map_values(|l: Seq<char>| shifted_line(l, by as nat)),
        decreases ls@.len() - i,
    {
        proof {
            assert(lv.len() == ls@.len());
            assert(lv[i as int] == ls@[i as int]@);
            assert(line_fits(lines_of(diff@)[i as int], by as nat));
        }
        let s = shift_line(&ls[i], by);
        let ghost before = out.deep_view();
        out.push(s);
        proof {
            assert(s.deep_view() =~= s@);
            assert(out.deep_view() =~= before.push(s@));
            assert(lv.take(i + 1).map_values(|l: Seq<char>| shifted_line(l, by as nat)) =~= lv.take(
                i as int,
            ).map_values(|l: Seq<char>| shifted_line(l, by as nat)).push(shifted_line(lv[i as int], by as nat)));
        }
        i += 1;
    }
    proof {
        assert(lv.take(ls@.len() as int) =~= lv);
    }
    let nl = chars_of("\n");
    string_of(&crate::text::join(&out, &nl))
}

// ---------------------------------------------------------------------------
// What the agent is told
// ---------------------------------------------------------------------------

/// Lines before the range's first line (1-based); hunks move by this.
pub open spec fn offset_of(start: nat) -> nat {
    if start > 0 {
        (start - 1) as nat
    } else {
        0
    }
}

/// The answer to a tracked read. `before` is the earlier read of the same
/// key, as its hash and how long ago it was made; `raw_diff` is the
/// unified diff from the earlier text to this one, when one could be
/// made; `start` is the range's first line; `content` the text read now.
/// A diff about as long as the range tells the agent nothing new.
pub open spec fn verdict_spec(
    before: Option<(Seq<char>, Seq<char>)>,
    hash: Seq<char>,
    raw_diff: Option<Seq<char>>,
    start: nat,
    content: Seq<char>,
) -> VerdictV {
    match before {
        None => VerdictV::Fresh,
        Some((h, ago)) => if h == hash {
            VerdictV::Unchanged(ago)
        } else {
            match raw_diff {
                Some(d) => {
                    let s = shift_hunks_spec(d, offset_of(start));
                    if utf8_len(s) > 0 && 2 * utf8_len(s) < utf8_len(content) {
                        VerdictV::Changed(ago, s)
                    } else {
                        VerdictV::Fresh
                    }
                },
                None => VerdictV::Fresh,
            }
        },
    }
}

/// A re-read of text the agent already has becomes a note that it is
/// unchanged, said with when it was read.
pub proof fn law_reread_unchanged(
    hash: Seq<char>,
    ago: Seq<char>,
    raw_diff: Option<Seq<char>>,
    start: nat,
    content: Seq<char>,
)
    ensures
        verdict_spec(Some((hash, ago)), hash, raw_diff, start, content) == VerdictV::Unchanged(ago),
{
}

/// The first read of a range (by this agent, in this context) is never
/// answered with a note.
pub proof fn law_first_read_fresh(hash: Seq<char>, raw_diff: Option<Seq<char>>, start: nat, content: Seq<char>)
    ensures
        verdict_spec(None, hash, raw_diff, start, content) == VerdictV::Fresh,
{
}

/// A diff is told only when it says something and is less than half as
/// long as the text read.
pub proof fn law_diff_shorter_than_half(
    before: Option<(Seq<char>, Seq<char>)>,
    hash: Seq<char>,
    raw_diff: Option<Seq<char>>,
    start: nat,
    content: Seq<char>,
)
    ensures
        verdict_spec(before, hash, raw_diff, start, content) matches VerdictV::Changed(_, d) ==> 0 < utf8_len(d)
            && 2 * utf8_len(d) < utf8_len(content),
{
}

/// Hunks of a read from the first line keep their line numbers.
pub proof fn law_whole_file_hunks_kept(diff: Seq<char>)
    ensures
        shift_hunks_spec(diff, offset_of(1)) == diff,
        shift_hunks_spec(diff, offset_of(0)) == diff,
{
}

pub fn verdict(
    before: Option<(&str, &str)>,
    hash: &str,
    raw_diff: Option<&str>,
    start: usize,
    content: &str,
) -> (r: Verdict)
    requires
        match raw_diff {
            Some(d) => hunks_fit(d@, offset_of(start as nat)),
            None => true,
        },
    ensures
        r.view() == verdict_spec(
            match before {
                Some((h, a)) => Some((h@, a@)),
                None => None,
            },
            hash@,
            match raw_diff {
                Some(d) => Some(d@),
                None => None,
            },
            start as nat,
            content@,
        ),
{
    let (h, ago) = match before {
        None => return Verdict::Fresh,
        Some(b) => b,
    };
    if str_eq(h, hash) {
        return Verdict::Unchanged { ago: ago.to_string() };
    }
    let d = match raw_diff {
        None => return Verdict::Fresh,
        Some(d) => d,
    };
    let by: usize = if start > 0 {
        start - 1
    } else {
        0
    };
    let s = shift_hunks(d, by);
    let sl = byte_len(&chars_of(s.as_str()));
    let cl = byte_len(&chars_of(content));
    if sl > 0 && sl <= cl && sl < cl - sl {
        Verdict::Changed { ago: ago.to_string(), diff: s }
    } else {
        Verdict::Fresh
    }
}

} // verus!
