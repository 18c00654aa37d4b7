//! Text as sequences of `char`: the line, word and whitespace rules the
//! rest of the library reads documents and messages by, each stated as a
//! spec function and computed by a verified loop.

use vstd::prelude::*;

verus! {

// ---------------------------------------------------------------------------
// Characters
// ---------------------------------------------------------------------------

/// Unicode `White_Space`, the set `char::is_whitespace` tests.
pub open spec fn is_ws(c: char) -> bool {
    let u = c as u32;
    ||| 0x09 <= u <= 0x0D
    ||| u == 0x20
    ||| u == 0x85
    ||| u == 0xA0
    ||| u == 0x1680
    ||| 0x2000 <= u <= 0x200A
    ||| u == 0x2028
    ||| u == 0x2029
    ||| u == 0x202F
    ||| u == 0x205F
    ||| u == 0x3000
}

pub fn is_whitespace(c: char) -> (b: bool)
    ensures
        b == is_ws(c),
{
    let u = c as u32;
    (0x09 <= u && u <= 0x0D) || u == 0x20 || u == 0x85 || u == 0xA0 || u == 0x1680 || (0x2000 <= u
        && u <= 0x200A) || u == 0x2028 || u == 0x2029 || u == 0x202F || u == 0x205F || u == 0x3000
}

pub open spec fn is_ascii_digit(c: char) -> bool {
    '0' <= c <= '9'
}

pub open spec fn is_ascii_alnum(c: char) -> bool {
    ||| 'a' <= c <= 'z'
    ||| 'A' <= c <= 'Z'
    ||| '0' <= c <= '9'
}

pub fn ascii_alnum(c: char) -> (b: bool)
    ensures
        b == is_ascii_alnum(c),
{
    ('a' <= c && c <= 'z') || ('A' <= c && c <= 'Z') || ('0' <= c && c <= '9')
}

/// `char::is_alphanumeric`: Unicode `Alphabetic` or `Numeric`. Its tables
/// take pages; what is stated of it is the ASCII range.
pub uninterp spec fn is_alnum(c: char) -> bool;

/// `char::is_alphanumeric`. Claims: on an ASCII character it agrees with
/// `is_ascii_alnum`; beyond ASCII the result is the named `is_alnum`.
#[verifier::external_body]
pub(crate) fn alphanumeric(c: char) -> (b: bool)
    ensures
        b == is_alnum(c),
        (c as u32) < 0x80 ==> (b == is_ascii_alnum(c)),
{
    c.is_alphanumeric()
}

/// ASCII letters in lower case; every other character unchanged.
pub open spec fn ascii_lower_char(c: char) -> char {
    if 'A' <= c <= 'Z' {
        ((c as u32) + 32) as char
    } else {
        c
    }
}

pub fn to_ascii_lower(c: char) -> (r: char)
    ensures
        r == ascii_lower_char(c),
{
    if 'A' <= c && c <= 'Z' {
        ((c as u8) + 32) as char
    } else {
        c
    }
}

pub open spec fn is_ascii_chars(s: Seq<char>) -> bool {
    forall|i: int| 0 <= i < s.len() ==> (#[trigger] s[i] as u32) < 0x80
}

pub open spec fn ascii_lower(s: Seq<char>) -> Seq<char> {
    s.map_values(|c: char| ascii_lower_char(c))
}

/// `str::to_ascii_lowercase` on characters.
pub fn ascii_lower_exec(s: &[char]) -> (r: Vec<char>)
    ensures
        r@ == ascii_lower(s@),
{
    let mut r: Vec<char> = Vec::new();
    let mut k: usize = 0;
    while k < s.len()
        invariant
            k <= s@.len(),
            r@ =~= ascii_lower(s@).take(k as int),
        decreases s@.len() - k,
    {
        r.push(to_ascii_lower(s[k]));
        proof {
            assert(ascii_lower(s@).take(k + 1) =~= ascii_lower(s@).take(k as int).push(ascii_lower_char(s@[k as int])));
        }
        k += 1;
    }
    proof {
        assert(ascii_lower(s@).take(s@.len() as int) =~= ascii_lower(s@));
    }
    r
}

/// What `str::to_lowercase` gives for `s`. Its case tables and the
/// final-sigma rule take pages; what is stated of it is the ASCII case.
pub uninterp spec fn lowercase(s: Seq<char>) -> Seq<char>;

/// `str::to_lowercase`. Claims: the result is the named `lowercase` of
/// the input, and on ASCII text it lowers `A`..`Z` and keeps the rest.
#[verifier::external_body]
pub(crate) fn to_lowercase(s: &str) -> (r: String)
    ensures
        r@ == lowercase(s@),
        is_ascii_chars(s@) ==> r@ == ascii_lower(s@),
{
    s.to_lowercase()
}

/// ASCII letters in upper case; every other character unchanged.
pub open spec fn ascii_upper_char(c: char) -> char {
    if 'a' <= c <= 'z' {
        ((c as u32) - 32) as char
    } else {
        c
    }
}

pub open spec fn ascii_upper(s: Seq<char>) -> Seq<char> {
    s.map_values(|c: char| ascii_upper_char(c))
}

/// What `str::to_uppercase` gives for `s`. Its case tables take pages;
/// what is stated of it is the ASCII case.
pub uninterp spec fn uppercase(s: Seq<char>) -> Seq<char>;

/// `str::to_uppercase`. Claims: the result is the named `uppercase` of
/// the input, and on ASCII text it raises `a`..`z` and keeps the rest.
#[verifier::external_body]
pub(crate) fn to_uppercase(s: &str) -> (r: String)
    ensures
        r@ == uppercase(s@),
        is_ascii_chars(s@) ==> r@ == ascii_upper(s@),
{
    s.to_uppercase()
}

// ---------------------------------------------------------------------------
// Conversions
// ---------------------------------------------------------------------------

/// The characters of `s`, in order.
pub fn chars_of(s: &str) -> (v: Vec<char>)
    ensures
        v@ == s@,
{
    let mut v: Vec<char> = Vec::new();
    for c in it: s.chars()
        invariant
            v@ == it.seq().take(it.index() as int),
    {
        v.push(c);
    }
    v
}


/// `String::push`. Claims: the string gains `c` at its end.
#[verifier::external_body]
fn push_char(s: &mut String, c: char)
    ensures
        final(s)@ == old(s)@.push(c),
{
    s.push(c);
}

pub fn string_of(v: &[char]) -> (s: String)
    ensures
        s@ == v@,
{
    let mut s = String::new();
    let mut i: usize = 0;
    while i < v.len()
        invariant
            i <= v.len(),
            s@ == v@.take(i as int),
        decreases v.len() - i,
    {
        push_char(&mut s, v[i]);
        i += 1;
    }
    s
}

pub fn append_chars(s: &mut String, v: &[char])
    ensures
        final(s)@ == old(s)@ + v@,
{
    let ghost start = s@;
    let mut i: usize = 0;
    while i < v.len()
        invariant
            i <= v.len(),
            s@ == start + v@.take(i as int),
        decreases v.len() - i,
    {
        push_char(s, v[i]);
        i += 1;
        assert(v@.take(i as int) == v@.take(i - 1).push(v@[i - 1]));
    }
    assert(v@.take(v@.len() as int) == v@);
}

pub fn copy_chars(v: &[char]) -> (r: Vec<char>)
    ensures
        r@ == v@,
{
    let mut r: Vec<char> = Vec::new();
    let mut i: usize = 0;
    while i < v.len()
        invariant
            i <= v.len(),
            r@ == v@.take(i as int),
        decreases v.len() - i,
    {
        r.push(v[i]);
        i += 1;
    }
    r
}

pub fn chars_eq(a: &[char], b: &[char]) -> (r: bool)
    ensures
        r == (a@ == b@),
{
    if a.len() != b.len() {
        return false;
    }
    let mut i: usize = 0;
    while i < a.len()
        invariant
            a.len() == b.len(),
            i <= a.len(),
            forall|k: int| 0 <= k < i ==> a@[k] == b@[k],
        decreases a.len() - i,
    {
        if a[i] != b[i] {
            return false;
        }
        i += 1;
    }
    assert(a@ =~= b@);
    true
}

pub fn str_eq(a: &str, b: &str) -> (r: bool)
    ensures
        r == (a@ == b@),
{
    let x = chars_of(a);
    let y = chars_of(b);
    chars_eq(&x, &y)
}

/// Lexicographic order on characters, as `str` compares.
pub open spec fn seq_lt(a: Seq<char>, b: Seq<char>) -> bool
    decreases a.len(),
{
    if a.len() == 0 {
        b.len() > 0
    } else if b.len() == 0 {
        false
    } else if a[0] != b[0] {
        (a[0] as u32) < (b[0] as u32)
    } else {
        seq_lt(a.drop_first(), b.drop_first())
    }
}

pub fn chars_lt(a: &[char], b: &[char]) -> (r: bool)
    ensures
        r == seq_lt(a@, b@),
{
    let mut i: usize = 0;
    proof {
        assert(a@.skip(0) =~= a@);
        assert(b@.skip(0) =~= b@);
    }
    while i < a.len() && i < b.len()
        invariant
            i <= a.len(),
            i <= b.len(),
            forall|k: int| 0 <= k < i ==> a@[k] == b@[k],
            seq_lt(a@, b@) == seq_lt(a@.skip(i as int), b@.skip(i as int)),
        decreases a.len() - i,
    {
        if a[i] != b[i] {
            proof {
                assert(a@.skip(i as int)[0] == a@[i as int]);
                assert(b@.skip(i as int)[0] == b@[i as int]);
            }
            return (a[i] as u32) < (b[i] as u32);
        }
        assert(a@.skip(i as int).drop_first() =~= a@.skip(i + 1));
        assert(b@.skip(i as int).drop_first() =~= b@.skip(i + 1));
        i += 1;
    }
    proof {
        if i == a.len() {
            assert(a@.skip(i as int).len() == 0);
        } else {
            assert(b@.skip(i as int).len() == 0);
        }
    }
    i == a.len() && i < b.len()
}

pub fn str_lt(a: &str, b: &str) -> (r: bool)
    ensures
        r == seq_lt(a@, b@),
{
    let x = chars_of(a);
    let y = chars_of(b);
    chars_lt(&x, &y)
}

// ---------------------------------------------------------------------------
// Prefixes, suffixes, search
// ---------------------------------------------------------------------------

pub open spec fn has_prefix(s: Seq<char>, p: Seq<char>) -> bool {
    p.len() <= s.len() && s.take(p.len() as int) == p
}

pub open spec fn has_suffix(s: Seq<char>, p: Seq<char>) -> bool {
    p.len() <= s.len() && s.skip(s.len() - p.len()) == p
}

/// `p` occurs in `s` at `i`.
pub open spec fn occurs_at(s: Seq<char>, p: Seq<char>, i: int) -> bool {
    0 <= i && i + p.len() <= s.len() && s.subrange(i, i + p.len()) == p
}

pub open spec fn contains_seq(s: Seq<char>, p: Seq<char>) -> bool {
    exists|i: int| occurs_at(s, p, i)
}

pub fn starts_with(s: &[char], p: &[char]) -> (r: bool)
    ensures
        r == has_prefix(s@, p@),
{
    if p.len() > s.len() {
        return false;
    }
    let mut i: usize = 0;
    while i < p.len()
        invariant
            p.len() <= s.len(),
            i <= p.len(),
            forall|k: int| 0 <= k < i ==> s@[k] == p@[k],
        decreases p.len() - i,
    {
        if s[i] != p[i] {
            assert(s@.take(p.len() as int)[i as int] != p@[i as int]);
            return false;
        }
        i += 1;
    }
    assert(s@.take(p.len() as int) =~= p@);
    true
}

pub fn ends_with(s: &[char], p: &[char]) -> (r: bool)
    ensures
        r == has_suffix(s@, p@),
{
    if p.len() > s.len() {
        return false;
    }
    let off = s.len() - p.len();
    let mut i: usize = 0;
    while i < p.len()
        invariant
            p.len() <= s.len(),
            off == s.len() - p.len(),
            i <= p.len(),
            forall|k: int| 0 <= k < i ==> s@[off + k] == p@[k],
        decreases p.len() - i,
    {
        if s[off + i] != p[i] {
            assert(s@.skip(off as int)[i as int] != p@[i as int]);
            return false;
        }
        i += 1;
    }
    assert(s@.skip(off as int) =~= p@);
    true
}

/// `s` starts with `p`.
pub fn str_starts_with(s: &str, p: &str) -> (r: bool)
    ensures
        r == has_prefix(s@, p@),
{
    let a = chars_of(s);
    let b = chars_of(p);
    starts_with(&a, &b)
}

pub fn occurs_at_exec(s: &[char], p: &[char], at: usize) -> (r: bool)
    ensures
        r == occurs_at(s@, p@, at as int),
{
    if at > s.len() || p.len() > s.len() - at {
        return false;
    }
    let mut i: usize = 0;
    while i < p.len()
        invariant
            at + p.len() <= s.len(),
            i <= p.len(),
            forall|k: int| 0 <= k < i ==> s@[at + k] == p@[k],
        decreases p.len() - i,
    {
        if s[at + i] != p[i] {
            assert(s@.subrange(at as int, at + p.len())[i as int] != p@[i as int]);
            return false;
        }
        i += 1;
    }
    assert(s@.subrange(at as int, at + p.len()) =~= p@);
    true
}

/// The first index at or after `from` where `p` occurs.
pub open spec fn first_at_or_after(s: Seq<char>, p: Seq<char>, from: int, i: int) -> bool {
    &&& from <= i
    &&& occurs_at(s, p, i)
    &&& forall|j: int| from <= j < i ==> !occurs_at(s, p, j)
}

/// Index of the first occurrence of `p` in `s` at or after `from`.
pub fn find_from(s: &[char], p: &[char], from: usize) -> (r: Option<usize>)
    ensures
        match r {
            Some(i) => first_at_or_after(s@, p@, from as int, i as int),
            None => forall|j: int| from <= j ==> !occurs_at(s@, p@, j),
        },
{
    let mut i = from;
    while i < s.len()
        invariant
            from <= i,
            forall|j: int| from <= j < i ==> !occurs_at(s@, p@, j),
        decreases s.len() - i,
    {
        if occurs_at_exec(s, p, i) {
            return Some(i);
        }
        i += 1;
    }
    if i == s.len() && occurs_at_exec(s, p, i) {
        return Some(i);
    }
    None
}

pub fn find(s: &[char], p: &[char]) -> (r: Option<usize>)
    ensures
        match r {
            Some(i) => first_at_or_after(s@, p@, 0, i as int),
            None => !contains_seq(s@, p@),
        },
{
    find_from(s, p, 0)
}

/// The index of the first occurrence of `p` in `s`, if it occurs.
pub open spec fn find_spec(s: Seq<char>, p: Seq<char>) -> Option<int> {
    if contains_seq(s, p) {
        Some(choose|i: int| first_at_or_after(s, p, 0, i))
    } else {
        None
    }
}

pub proof fn lemma_find_spec(s: Seq<char>, p: Seq<char>, i: int)
    requires
        first_at_or_after(s, p, 0, i),
    ensures
        find_spec(s, p) == Some(i),
{
    assert(contains_seq(s, p));
    let j = choose|j: int| first_at_or_after(s, p, 0, j);
    if j < i {
        assert(!occurs_at(s, p, j));
    } else if j > i {
        assert(!occurs_at(s, p, i));
    }
}

/// `find` stated over `find_spec`.
pub fn locate(s: &[char], p: &[char]) -> (r: Option<usize>)
    ensures
        match r {
            Some(i) => find_spec(s@, p@) == Some(i as int) && first_at_or_after(s@, p@, 0, i as int),
            None => find_spec(s@, p@) == None::<int>,
        },
{
    let r = find(s, p);
    proof {
        if let Some(i) = r {
            lemma_find_spec(s@, p@, i as int);
        }
    }
    r
}

pub fn contains(s: &[char], p: &[char]) -> (r: bool)
    ensures
        r == contains_seq(s@, p@),
{
    match find(s, p) {
        Some(i) => true,
        None => false,
    }
}

pub fn contains_char(s: &[char], c: char) -> (r: bool)
    ensures
        r == s@.contains(c),
{
    let mut i: usize = 0;
    while i < s.len()
        invariant
            i <= s.len(),
            forall|k: int| 0 <= k < i ==> s@[k] != c,
        decreases s.len() - i,
    {
        if s[i] == c {
            return true;
        }
        i += 1;
    }
    false
}

pub fn slice(s: &[char], from: usize, to: usize) -> (r: Vec<char>)
    requires
        from <= to <= s.len(),
    ensures
        r@ == s@.subrange(from as int, to as int),
{
    let mut r: Vec<char> = Vec::new();
    let mut i = from;
    while i < to
        invariant
            from <= i <= to <= s.len(),
            r@ == s@.subrange(from as int, i as int),
        decreases to - i,
    {
        r.push(s[i]);
        i += 1;
    }
    r
}

// ---------------------------------------------------------------------------
// Whitespace
// ---------------------------------------------------------------------------

/// Leading whitespace characters of `s`.
pub open spec fn ws_prefix_len(s: Seq<char>) -> nat
    decreases s.len(),
{
    if s.len() > 0 && is_ws(s[0]) {
        1 + ws_prefix_len(s.drop_first())
    } else {
        0
    }
}

pub open spec fn ws_suffix_len(s: Seq<char>) -> nat
    decreases s.len(),
{
    if s.len() > 0 && is_ws(s.last()) {
        1 + ws_suffix_len(s.drop_last())
    } else {
        0
    }
}

pub open spec fn trim_start_spec(s: Seq<char>) -> Seq<char> {
    s.skip(ws_prefix_len(s) as int)
}

pub open spec fn trim_end_spec(s: Seq<char>) -> Seq<char> {
    s.take(s.len() - ws_suffix_len(s))
}

pub open spec fn trim_spec(s: Seq<char>) -> Seq<char> {
    trim_end_spec(trim_start_spec(s))
}

pub proof fn lemma_ws_prefix_len(s: Seq<char>)
    ensures
        ws_prefix_len(s) <= s.len(),
        forall|k: int| 0 <= k < ws_prefix_len(s) ==> is_ws(#[trigger] s[k]),
        ws_prefix_len(s) < s.len() ==> !is_ws(s[ws_prefix_len(s) as int]),
    decreases s.len(),
{
    if s.len() > 0 && is_ws(s[0]) {
        lemma_ws_prefix_len(s.drop_first());
        assert forall|k: int| 0 <= k < ws_prefix_len(s) implies is_ws(#[trigger] s[k]) by {
            if k > 0 {
                assert(s[k] == s.drop_first()[k - 1]);
            }
        }
    }
}

pub proof fn lemma_ws_suffix_len(s: Seq<char>)
    ensures
        ws_suffix_len(s) <= s.len(),
        forall|k: int| s.len() - ws_suffix_len(s) <= k < s.len() ==> is_ws(#[trigger] s[k]),
        ws_suffix_len(s) < s.len() ==> !is_ws(s[s.len() - ws_suffix_len(s) - 1]),
    decreases s.len(),
{
    if s.len() > 0 && is_ws(s.last()) {
        lemma_ws_suffix_len(s.drop_last());
        assert forall|k: int| s.len() - ws_suffix_len(s) <= k < s.len() implies is_ws(
            #[trigger] s[k],
        ) by {
            if k < s.len() - 1 {
                assert(s[k] == s.drop_last()[k]);
            }
        }
    }
}

/// `ws_prefix_len` is the index of the first non-whitespace character.
pub proof fn lemma_ws_prefix_len_is(s: Seq<char>, n: int)
    requires
        0 <= n <= s.len(),
        forall|k: int| 0 <= k < n ==> is_ws(#[trigger] s[k]),
        n < s.len() ==> !is_ws(s[n]),
    ensures
        ws_prefix_len(s) == n,
    decreases s.len(),
{
    if n > 0 {
        assert(is_ws(s[0]));
        assert forall|k: int| 0 <= k < n - 1 implies is_ws(#[trigger] s.drop_first()[k]) by {
            assert(s.drop_first()[k] == s[k + 1]);
        }
        lemma_ws_prefix_len_is(s.drop_first(), n - 1);
    }
}

pub proof fn lemma_ws_suffix_len_is(s: Seq<char>, n: int)
    requires
        0 <= n <= s.len(),
        forall|k: int| s.len() - n <= k < s.len() ==> is_ws(#[trigger] s[k]),
        n < s.len() ==> !is_ws(s[s.len() - n - 1]),
    ensures
        ws_suffix_len(s) == n,
    decreases s.len(),
{
    if n > 0 {
        assert(is_ws(s.last()));
        assert forall|k: int| s.drop_last().len() - (n - 1) <= k < s.drop_last().len() implies is_ws(
            #[trigger] s.drop_last()[k],
        ) by {
            assert(s.drop_last()[k] == s[k]);
        }
        lemma_ws_suffix_len_is(s.drop_last(), n - 1);
    }
}

/// Index of the first non-whitespace character (or the length).
pub fn ws_prefix(s: &[char]) -> (n: usize)
    ensures
        n == ws_prefix_len(s@),
{
    let mut i: usize = 0;
    while i < s.len() && is_whitespace(s[i])
        invariant
            i <= s.len(),
            forall|k: int| 0 <= k < i ==> is_ws(#[trigger] s@[k]),
        decreases s.len() - i,
    {
        i += 1;
    }
    proof {
        lemma_ws_prefix_len_is(s@, i as int);
    }
    i
}

/// Count of trailing whitespace characters.
pub fn ws_suffix(s: &[char]) -> (n: usize)
    ensures
        n == ws_suffix_len(s@),
{
    let mut i: usize = 0;
    while i < s.len() && is_whitespace(s[s.len() - 1 - i])
        invariant
            i <= s.len(),
            forall|k: int| s.len() - i <= k < s.len() ==> is_ws(#[trigger] s@[k]),
        decreases s.len() - i,
    {
        i += 1;
    }
    proof {
        lemma_ws_suffix_len_is(s@, i as int);
    }
    i
}

pub fn trim_start(s: &[char]) -> (r: Vec<char>)
    ensures
        r@ == trim_start_spec(s@),
{
    let n = ws_prefix(s);
    proof {
        lemma_ws_prefix_len(s@);
    }
    slice(s, n, s.len())
}

pub fn trim_end(s: &[char]) -> (r: Vec<char>)
    ensures
        r@ == trim_end_spec(s@),
{
    let n = ws_suffix(s);
    proof {
        lemma_ws_suffix_len(s@);
    }
    slice(s, 0, s.len() - n)
}

pub fn trim(s: &[char]) -> (r: Vec<char>)
    ensures
        r@ == trim_spec(s@),
{
    let a = trim_start(s);
    trim_end(&a)
}

pub fn trim_str(s: &str) -> (r: String)
    ensures
        r@ == trim_spec(s@),
{
    let v = chars_of(s);
    let t = trim(&v);
    string_of(&t)
}

pub fn is_blank(s: &[char]) -> (r: bool)
    ensures
        r == (trim_spec(s@).len() == 0),
        r == (forall|k: int| 0 <= k < s@.len() ==> is_ws(#[trigger] s@[k])),
{
    let n = ws_prefix(s);
    proof {
        lemma_ws_prefix_len(s@);
        let t = trim_start_spec(s@);
        lemma_ws_suffix_len(t);
        if n < s.len() {
            assert(t.len() > 0);
            assert(!is_ws(t[0]));
            if ws_suffix_len(t) == t.len() {
                assert(is_ws(t[0]));
            }
        }
    }
    n == s.len()
}

// ---------------------------------------------------------------------------
// Lines
// ---------------------------------------------------------------------------

/// One line's text: a `\r` before the newline that ended it is not part
/// of it.
pub open spec fn strip_cr(l: Seq<char>) -> Seq<char> {
    if l.len() > 0 && l.last() == '\r' {
        l.drop_last()
    } else {
        l
    }
}

/// `str::lines`: text split at `\n` (a `\r\n` ending counts as one), no
/// line after a final newline, no lines at all for empty text.
pub open spec fn lines_of(s: Seq<char>) -> Seq<Seq<char>>
    decreases s.len(),
{
    if s.len() == 0 {
        seq![]
    } else {
        let i = first_nl(s);
        proof {
            lemma_first_nl(s);
        }
        if i < 0 {
            seq![s]
        } else {
            seq![strip_cr(s.take(i))] + lines_of(s.skip(i + 1))
        }
    }
}

/// Index of the first `\n` in `s`, or -1.
pub open spec fn first_nl(s: Seq<char>) -> int
    decreases s.len(),
{
    if s.len() == 0 {
        -1
    } else if s[0] == '\n' {
        0
    } else {
        let r = first_nl(s.drop_first());
        if r < 0 {
            -1
        } else {
            r + 1
        }
    }
}

pub proof fn lemma_first_nl(s: Seq<char>)
    ensures
        -1 <= first_nl(s) < s.len(),
        first_nl(s) >= 0 ==> s[first_nl(s)] == '\n',
        forall|j: int| 0 <= j < s.len() && (first_nl(s) < 0 || j < first_nl(s)) ==> s[j] != '\n',
    decreases s.len(),
{
    if s.len() > 0 && s[0] != '\n' {
        lemma_first_nl(s.drop_first());
        assert forall|j: int|
            0 <= j < s.len() && (first_nl(s) < 0 || j < first_nl(s)) implies s[j] != '\n' by {
            if j > 0 {
                assert(s[j] == s.drop_first()[j - 1]);
            }
        }
    }
}

pub proof fn lemma_first_nl_is(s: Seq<char>, i: int)
    requires
        -1 <= i < s.len(),
        i >= 0 ==> s[i] == '\n',
        forall|j: int| 0 <= j < s.len() && (i < 0 || j < i) ==> s[j] != '\n',
    ensures
        first_nl(s) == i,
    decreases s.len(),
{
    if s.len() > 0 && i != 0 {
        assert(s[0] != '\n');
        let t = s.drop_first();
        let ti = if i < 0 {
            -1
        } else {
            i - 1
        };
        assert forall|j: int| 0 <= j < t.len() && (ti < 0 || j < ti) implies t[j] != '\n' by {
            assert(t[j] == s[j + 1]);
        }
        lemma_first_nl_is(t, ti);
    }
}

/// Index of the first newline at or after `from`, or the length.
pub fn next_nl(s: &[char], from: usize) -> (r: usize)
    requires
        from <= s.len(),
    ensures
        from <= r <= s.len(),
        r < s.len() ==> s@[r as int] == '\n',
        forall|j: int| from <= j < r ==> s@[j] != '\n',
{
    let mut i = from;
    while i < s.len() && s[i] != '\n'
        invariant
            from <= i <= s.len(),
            forall|j: int| from <= j < i ==> s@[j] != '\n',
        decreases s.len() - i,
    {
        i += 1;
    }
    i
}

pub fn strip_cr_exec(l: Vec<char>) -> (r: Vec<char>)
    ensures
        r@ == strip_cr(l@),
{
    let mut l = l;
    if l.len() > 0 && l[l.len() - 1] == '\r' {
        l.pop();
    }
    l
}

/// `str::lines` on characters.
pub fn lines(s: &[char]) -> (r: Vec<Vec<char>>)
    ensures
        r.deep_view() == lines_of(s@),
{
    let mut r: Vec<Vec<char>> = Vec::new();
    let mut at: usize = 0;
    proof {
        assert(s@.skip(0) =~= s@);
        assert(r.deep_view() =~= Seq::<Seq<char>>::empty());
        assert(Seq::<Seq<char>>::empty() + lines_of(s@) =~= lines_of(s@));
    }
    while at < s.len()
        invariant
            at <= s.len(),
            r.deep_view() + lines_of(s@.skip(at as int)) == lines_of(s@),
        decreases s.len() - at,
    {
        let e = next_nl(s, at);
        let ghost rest = s@.skip(at as int);
        proof {
            if e < s.len() {
                lemma_first_nl_is(rest, e - at);
            } else {
                lemma_first_nl_is(rest, -1);
            }
        }
        let piece = slice(s, at, e);
        if e < s.len() {
            let l = strip_cr_exec(piece);
            let ghost old = r.deep_view();
            r.push(l);
            proof {
                assert(l.deep_view() =~= l@);
                assert(r.deep_view() =~= old.push(l@));
                assert(rest.take(e - at) =~= s@.subrange(at as int, e as int));
                assert(rest.skip(e - at + 1) =~= s@.skip(e + 1));
                assert(r.deep_view() =~= r.deep_view().drop_last().push(l@));
            }
            at = e + 1;
        } else {
            let ghost old = r.deep_view();
            r.push(piece);
            proof {
                assert(piece.deep_view() =~= piece@);
                assert(r.deep_view() =~= old.push(piece@));
                assert(rest =~= s@.subrange(at as int, e as int));
                assert(r.deep_view() =~= r.deep_view().drop_last().push(piece@));
                assert(s@.skip(e as int) =~= Seq::<char>::empty());
            }
            at = e;
        }
    }
    proof {
        assert(s@.skip(at as int) =~= Seq::<char>::empty());
        assert(r.deep_view() + Seq::<Seq<char>>::empty() =~= r.deep_view());
    }
    r
}

pub fn lines_str(s: &str) -> (r: Vec<Vec<char>>)
    ensures
        r.deep_view() == lines_of(s@),
{
    let v = chars_of(s);
    lines(&v)
}

// ---------------------------------------------------------------------------
// Words
// ---------------------------------------------------------------------------

/// `str::split_whitespace`: the maximal runs of non-whitespace characters.
pub open spec fn words_of(s: Seq<char>) -> Seq<Seq<char>>
    decreases s.len(),
{
    let t = trim_start_spec(s);
    proof {
        lemma_ws_prefix_len(s);
    }
    if t.len() == 0 {
        seq![]
    } else {
        let w = word_len(t);
        proof {
            lemma_word_len(t);
            lemma_ws_prefix_len(s);
            assert(!is_ws(t[0]));
        }
        seq![t.take(w as int)] + words_of(t.skip(w as int))
    }
}

/// Length of the run of non-whitespace at the start of `s`.
pub open spec fn word_len(s: Seq<char>) -> nat
    decreases s.len(),
{
    if s.len() > 0 && !is_ws(s[0]) {
        1 + word_len(s.drop_first())
    } else {
        0
    }
}

pub proof fn lemma_word_len(s: Seq<char>)
    ensures
        word_len(s) <= s.len(),
        forall|k: int| 0 <= k < word_len(s) ==> !is_ws(#[trigger] s[k]),
        word_len(s) < s.len() ==> is_ws(s[word_len(s) as int]),
    decreases s.len(),
{
    if s.len() > 0 && !is_ws(s[0]) {
        lemma_word_len(s.drop_first());
        assert forall|k: int| 0 <= k < word_len(s) implies !is_ws(#[trigger] s[k]) by {
            if k > 0 {
                assert(s[k] == s.drop_first()[k - 1]);
            }
        }
    }
}

pub proof fn lemma_word_len_is(s: Seq<char>, n: int)
    requires
        0 <= n <= s.len(),
        forall|k: int| 0 <= k < n ==> !is_ws(#[trigger] s[k]),
        n < s.len() ==> is_ws(s[n]),
    ensures
        word_len(s) == n,
    decreases s.len(),
{
    if n > 0 {
        assert(!is_ws(s[0]));
        assert forall|k: int| 0 <= k < n - 1 implies !is_ws(#[trigger] s.drop_first()[k]) by {
            assert(s.drop_first()[k] == s[k + 1]);
        }
        lemma_word_len_is(s.drop_first(), n - 1);
    }
}

pub proof fn lemma_words_of_blank(s: Seq<char>)
    requires
        forall|k: int| 0 <= k < s.len() ==> is_ws(#[trigger] s[k]),
    ensures
        words_of(s) == Seq::<Seq<char>>::empty(),
{
    lemma_ws_prefix_len_is(s, s.len() as int);
}

pub fn split_whitespace(s: &[char]) -> (r: Vec<Vec<char>>)
    ensures
        r.deep_view() == words_of(s@),
{
    let mut r: Vec<Vec<char>> = Vec::new();
    let mut at: usize = 0;
    proof {
        assert(s@.skip(0) =~= s@);
        assert(r.deep_view() =~= Seq::<Seq<char>>::empty());
        assert(Seq::<Seq<char>>::empty() + words_of(s@) =~= words_of(s@));
    }
    while at < s.len()
        invariant
            at <= s.len(),
            r.deep_view() + words_of(s@.skip(at as int)) == words_of(s@),
        decreases s.len() - at,
    {
        let ghost rest = s@.skip(at as int);
        let mut b = at;
        while b < s.len() && is_whitespace(s[b])
            invariant
                at <= b <= s.len(),
                forall|k: int| at <= k < b ==> is_ws(#[trigger] s@[k]),
            decreases s.len() - b,
        {
            b += 1;
        }
        proof {
            assert forall|k: int| 0 <= k < b - at implies is_ws(#[trigger] rest[k]) by {
                assert(rest[k] == s@[at + k]);
            }
            lemma_ws_prefix_len_is(rest, b - at);
        }
        if b == s.len() {
            proof {
                assert(trim_start_spec(rest) =~= Seq::<char>::empty());
                assert(words_of(rest) == Seq::<Seq<char>>::empty());
                assert(s@.skip(b as int) =~= Seq::<char>::empty());
                assert(r.deep_view() + words_of(s@.skip(b as int)) =~= r.deep_view());
                assert(r.deep_view() + Seq::<Seq<char>>::empty() =~= r.deep_view());
            }
            at = b;
        } else {
            let mut e = b;
            while e < s.len() && !is_whitespace(s[e])
                invariant
                    b <= e <= s.len(),
                    forall|k: int| b <= k < e ==> !is_ws(#[trigger] s@[k]),
                decreases s.len() - e,
            {
                e += 1;
            }
            let ghost t = trim_start_spec(rest);
            proof {
                assert(t =~= s@.skip(b as int));
                assert forall|k: int| 0 <= k < e - b implies !is_ws(#[trigger] t[k]) by {
                    assert(t[k] == s@[b + k]);
                }
                lemma_word_len_is(t, e - b);
                assert(t.take(e - b) =~= s@.subrange(b as int, e as int));
                assert(t.skip(e - b) =~= s@.skip(e as int));
            }
            let w = slice(s, b, e);
            let ghost old = r.deep_view();
            r.push(w);
            proof {
                assert(w.deep_view() =~= w@);
                assert(r.deep_view() =~= old.push(w@));
                assert(r.deep_view() =~= r.deep_view().drop_last().push(w@));
            }
            at = e;
        }
    }
    proof {
        assert(s@.skip(at as int) =~= Seq::<char>::empty());
        assert(words_of(Seq::<char>::empty()) == Seq::<Seq<char>>::empty());
        assert(r.deep_view() + Seq::<Seq<char>>::empty() =~= r.deep_view());
    }
    r
}

/// Words joined by single spaces: `split_whitespace().join(" ")`.
/// The same words in the same order, whatever whitespace is between them.
pub fn words_eq(a: &[char], b: &[char]) -> (r: bool)
    ensures
        r == (words_of(a@) == words_of(b@)),
{
    let x = split_whitespace(a);
    let y = split_whitespace(b);
    if x.len() != y.len() {
        proof {
            assert(x.deep_view().len() != y.deep_view().len());
        }
        return false;
    }
    let mut i: usize = 0;
    while i < x.len()
        invariant
            x.len() == y.len(),
            x.deep_view() == words_of(a@),
            y.deep_view() == words_of(b@),
            i <= x.len(),
            forall|k: int| 0 <= k < i ==> x.deep_view()[k] == y.deep_view()[k],
        decreases x.len() - i,
    {
        if !chars_eq(&x[i], &y[i]) {
            proof {
                assert(x.deep_view()[i as int] == x@[i as int]@);
                assert(y.deep_view()[i as int] == y@[i as int]@);
            }
            return false;
        }
        proof {
            assert(x.deep_view()[i as int] == x@[i as int]@);
            assert(y.deep_view()[i as int] == y@[i as int]@);
        }
        i += 1;
    }
    proof {
        assert(x.deep_view() =~= y.deep_view());
    }
    true
}

pub open spec fn join_spec(parts: Seq<Seq<char>>, sep: Seq<char>) -> Seq<char>
    decreases parts.len(),
{
    if parts.len() == 0 {
        seq![]
    } else if parts.len() == 1 {
        parts[0]
    } else {
        join_spec(parts.drop_last(), sep) + sep + parts.last()
    }
}

pub fn join(parts: &Vec<Vec<char>>, sep: &[char]) -> (r: Vec<char>)
    ensures
        r@ == join_spec(parts.deep_view(), sep@),
{
    let mut r: Vec<char> = Vec::new();
    let mut i: usize = 0;
    while i < parts.len()
        invariant
            i <= parts.len(),
            r@ == join_spec(parts.deep_view().take(i as int), sep@),
        decreases parts.len() - i,
    {
        let ghost before = r@;
        if i > 0 {
            let mut k: usize = 0;
            while k < sep.len()
                invariant
                    k <= sep.len(),
                    r@ == before + sep@.take(k as int),
                decreases sep.len() - k,
            {
                r.push(sep[k]);
                k += 1;
            }
        }
        let ghost mid = r@;
        let p = &parts[i];
        let mut k: usize = 0;
        while k < p.len()
            invariant
                k <= p.len(),
                r@ == mid + p@.take(k as int),
            decreases p.len() - k,
        {
            r.push(p[k]);
            k += 1;
        }
        proof {
            let d = parts.deep_view();
            assert(d.take(i + 1).drop_last() =~= d.take(i as int));
            assert(d[i as int] == p@);
            assert(p@.take(p@.len() as int) =~= p@);
            assert(sep@.take(sep@.len() as int) =~= sep@);
            if i == 0 {
                assert(join_spec(d.take(0), sep@) =~= Seq::<char>::empty());
                assert(r@ =~= p@);
            }
        }
        i += 1;
    }
    proof {
        assert(parts.deep_view().take(parts.len() as int) =~= parts.deep_view());
    }
    r
}

/// `s.split_whitespace().collect::<Vec<_>>().join(" ")`.
pub fn squash_ws(s: &[char]) -> (r: Vec<char>)
    ensures
        r@ == join_spec(words_of(s@), seq![' ']),
{
    let w = split_whitespace(s);
    let sep: Vec<char> = vec![' '];
    assert(sep@ =~= seq![' ']);
    join(&w, &sep)
}

// ---------------------------------------------------------------------------
// Sizes
// ---------------------------------------------------------------------------

/// Bytes of the UTF-8 encoding of `c`.
pub open spec fn utf8_width(c: char) -> nat {
    let u = c as u32;
    if u < 0x80 {
        1
    } else if u < 0x800 {
        2
    } else if u < 0x10000 {
        3
    } else {
        4
    }
}

/// Bytes of the UTF-8 encoding of `s`: what `str::len` counts.
pub open spec fn utf8_len(s: Seq<char>) -> nat
    decreases s.len(),
{
    if s.len() == 0 {
        0
    } else {
        utf8_len(s.drop_last()) + utf8_width(s.last())
    }
}

pub proof fn lemma_utf8_len_concat(a: Seq<char>, b: Seq<char>)
    ensures
        utf8_len(a + b) == utf8_len(a) + utf8_len(b),
    decreases b.len(),
{
    if b.len() == 0 {
        assert(a + b =~= a);
    } else {
        lemma_utf8_len_concat(a, b.drop_last());
        assert((a + b).drop_last() =~= a + b.drop_last());
    }
}

pub proof fn lemma_utf8_len_bounds(s: Seq<char>)
    ensures
        s.len() <= utf8_len(s) <= 4 * s.len(),
        is_ascii_chars(s) ==> utf8_len(s) == s.len(),
    decreases s.len(),
{
    if s.len() > 0 {
        lemma_utf8_len_bounds(s.drop_last());
    }
}

pub fn width(c: char) -> (w: usize)
    ensures
        w == utf8_width(c),
{
    let u = c as u32;
    if u < 0x80 {
        1
    } else if u < 0x800 {
        2
    } else if u < 0x10000 {
        3
    } else {
        4
    }
}

/// UTF-8 size of `s`, in bytes. At most four bytes a character, so it
/// always fits in a `u128`.
pub fn byte_len(s: &[char]) -> (n: u128)
    ensures
        n == utf8_len(s@),
        n <= 4 * s@.len(),
{
    let mut n: u128 = 0;
    let mut i: usize = 0;
    while i < s.len()
        invariant
            i <= s.len(),
            n == utf8_len(s@.take(i as int)),
            n <= 4 * i,
        decreases s.len() - i,
    {
        proof {
            assert(s@.take(i + 1).drop_last() =~= s@.take(i as int));
        }
        n = n + width(s[i]) as u128;
        i += 1;
    }
    proof {
        assert(s@.take(s.len() as int) =~= s@);
    }
    n
}

/// UTF-8 size of `s`, in bytes.
pub fn str_bytes(s: &str) -> (n: u128)
    ensures
        n == utf8_len(s@),
{
    let v = chars_of(s);
    byte_len(&v)
}

/// `k` characters of `s` take `n` bytes of UTF-8 (all of `s` when it is
/// shorter).
pub open spec fn at_byte(s: Seq<char>, n: nat, k: int) -> bool {
    0 <= k <= s.len() && utf8_len(s.take(k)) == if n < utf8_len(s) {
        n
    } else {
        utf8_len(s)
    }
}

/// Byte `n` of `s` falls between two characters (or past its end).
pub open spec fn cuts_at(s: Seq<char>, n: nat) -> bool {
    exists|k: int| at_byte(s, n, k)
}

/// The first `n` bytes of `s`, as `&s[..n.min(s.len())]` takes them.
pub open spec fn byte_prefix(s: Seq<char>, n: nat) -> Seq<char> {
    s.take(choose|k: int| at_byte(s, n, k))
}

proof fn lemma_utf8_take_step(s: Seq<char>, k: int)
    requires
        0 <= k < s.len(),
    ensures
        utf8_len(s.take(k + 1)) == utf8_len(s.take(k)) + utf8_width(s[k]),
{
    assert(s.take(k + 1).drop_last() =~= s.take(k));
}

proof fn lemma_utf8_take_mono(s: Seq<char>, a: int, b: int)
    requires
        0 <= a < b <= s.len(),
    ensures
        utf8_len(s.take(a)) < utf8_len(s.take(b)),
    decreases b - a,
{
    lemma_utf8_take_step(s, b - 1);
    if a < b - 1 {
        lemma_utf8_take_mono(s, a, b - 1);
    }
}

pub fn byte_prefix_exec(s: &[char], n: usize) -> (r: Vec<char>)
    requires
        cuts_at(s@, n as nat),
    ensures
        r@ == byte_prefix(s@, n as nat),
{
    let mut i: usize = 0;
    let mut b: usize = 0;
    proof {
        assert(s@.take(0) =~= Seq::<char>::empty());
    }
    while i < s.len() && width(s[i]) <= n - b
        invariant
            i <= s.len(),
            b <= n,
            b == utf8_len(s@.take(i as int)),
        decreases s.len() - i,
    {
        proof {
            lemma_utf8_take_step(s@, i as int);
        }
        b = b + width(s[i]);
        i += 1;
    }
    proof {
        let k = choose|k: int| at_byte(s@, n as nat, k);
        if i == s.len() {
            assert(s@.take(i as int) =~= s@);
        } else {
            lemma_utf8_take_step(s@, i as int);
            assert(s@.take(s@.len() as int) =~= s@);
            if i + 1 < s@.len() {
                lemma_utf8_take_mono(s@, i + 1, s@.len() as int);
            }
        }
        if k < i {
            lemma_utf8_take_mono(s@, k, i as int);
        } else if k > i {
            if i < s.len() {
                if k > i + 1 {
                    lemma_utf8_take_mono(s@, i + 1, k);
                }
            }
        }
        if i < s.len() && i + 1 < s@.len() {
            lemma_utf8_take_mono(s@, i as int, s@.len() as int);
        }
        assert(k == i);
    }
    slice(s, 0, i)
}

/// `str::split` by one character: the pieces between its occurrences,
/// an empty piece where two are adjacent or at an end.
pub open spec fn split_on(s: Seq<char>, c: char) -> Seq<Seq<char>>
    decreases s.len(),
{
    if s.len() == 0 {
        seq![seq![]]
    } else {
        let rest = split_on(s.drop_last(), c);
        if s.last() == c {
            rest.push(seq![])
        } else {
            rest.update(rest.len() - 1, rest.last().push(s.last()))
        }
    }
}

pub proof fn lemma_split_on_len(s: Seq<char>, c: char)
    ensures
        split_on(s, c).len() >= 1,
    decreases s.len(),
{
    if s.len() > 0 {
        lemma_split_on_len(s.drop_last(), c);
    }
}

pub fn split_char(s: &[char], c: char) -> (r: Vec<Vec<char>>)
    ensures
        r.deep_view() == split_on(s@, c),
        r@.len() >= 1,
{
    let mut r: Vec<Vec<char>> = Vec::new();
    let e: Vec<char> = Vec::new();
    proof {
        assert(e.deep_view() =~= Seq::<char>::empty());
    }
    r.push(e);
    let mut i: usize = 0;
    proof {
        assert(s@.take(0) =~= Seq::<char>::empty());
        assert(r.deep_view() =~= seq![Seq::<char>::empty()]);
    }
    while i < s.len()
        invariant
            i <= s.len(),
            r@.len() >= 1,
            r.deep_view() == split_on(s@.take(i as int), c),
        decreases s.len() - i,
    {
        let ghost before = r.deep_view();
        proof {
            assert(s@.take(i + 1).drop_last() =~= s@.take(i as int));
            assert(s@.take(i + 1).last() == s@[i as int]);
        }
        if s[i] == c {
            let e: Vec<char> = Vec::new();
            proof {
                assert(e.deep_view() =~= Seq::<char>::empty());
            }
            r.push(e);
            proof {
                assert(r.deep_view() =~= before.push(seq![]));
            }
        } else {
            let k = r.len() - 1;
            let ghost inner = r@[k as int]@;
            proof {
                assert(before[k as int] =~= inner);
            }
            r[k].push(s[i]);
            proof {
                assert(r@[k as int]@ == inner.push(s@[i as int]));
                assert(r.deep_view()[k as int] =~= inner.push(s@[i as int]));
                assert forall|j: int| 0 <= j < r@.len() && j != k implies #[trigger] r.deep_view()[j] == before[j] by {}
                assert(r.deep_view() =~= before.update(k as int, before.last().push(s@[i as int])));
            }
        }
        i += 1;
    }
    proof {
        assert(s@.take(s@.len() as int) =~= s@);
    }
    r
}

/// `m` without any number of leading `p`.
pub open spec fn strip_all(m: Seq<char>, p: Seq<char>) -> Seq<char>
    decreases m.len(),
{
    if p.len() > 0 && has_prefix(m, p) {
        strip_all(m.skip(p.len() as int), p)
    } else {
        m
    }
}

pub fn strip_all_exec(m: &[char], p: &[char]) -> (r: Vec<char>)
    ensures
        r@ == strip_all(m@, p@),
{
    let mut cur = copy_chars(m);
    while p.len() > 0 && starts_with(&cur, p)
        invariant
            strip_all(cur@, p@) == strip_all(m@, p@),
        decreases cur@.len(),
    {
        cur = slice(&cur, p.len(), cur.len());
    }
    cur
}

/// The texts of `v` as character vectors.
pub fn strings_to_chars(v: &Vec<String>) -> (r: Vec<Vec<char>>)
    ensures
        r.deep_view() == v.deep_view(),
{
    let mut r: Vec<Vec<char>> = Vec::new();
    let mut i: usize = 0;
    while i < v.len()
        invariant
            i <= v@.len(),
            r.deep_view() =~= v.deep_view().take(i as int),
        decreases v@.len() - i,
    {
        let c = chars_of(v[i].as_str());
        proof {
            assert(c.deep_view() =~= c@);
        }
        let ghost before = r.deep_view();
        r.push(c);
        proof {
            assert(r.deep_view() =~= before.push(c@));
            assert(v.deep_view().take(i + 1) =~= v.deep_view().take(i as int).push(v@[i as int]@));
        }
        i += 1;
    }
    proof {
        assert(v.deep_view().take(v@.len() as int) =~= v.deep_view());
    }
    r
}

} // verus!
