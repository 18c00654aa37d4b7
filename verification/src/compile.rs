//! Promote what recent sessions settled into memory. A handoff is a
//! buffer with a half-life of days; a decision the user answered during a
//! session deserves to outlive it. No model: the candidates are the
//! decisions the handoffs already list, minus what memory already holds.
//!
//! Listing the memory and reading the recent handoffs is the caller's.

use vstd::prelude::*;

use crate::frontmatter::{get, get_spec};
use crate::text::{
    byte_prefix, byte_prefix_exec, chars_eq, chars_of, cuts_at, has_prefix, lines, lines_of, slice, starts_with,
    str_eq, string_of, trim, trim_spec,
};

verus! {

/// A decision found in a handoff and not yet remembered.
#[derive(Debug, Clone, PartialEq, Eq)]
pub struct Candidate {
    pub text: String,
    /// The session it was decided in.
    pub session: Option<String>,
    pub ended: String,
}

pub struct CandidateV {
    pub text: Seq<char>,
    pub session: Option<Seq<char>>,
    pub ended: Seq<char>,
}

pub open spec fn opt_view(o: Option<String>) -> Option<Seq<char>> {
    match o {
        Some(s) => Some(s@),
        None => None,
    }
}

impl Candidate {
    pub open spec fn view(&self) -> CandidateV {
        CandidateV { text: self.text@, session: opt_view(self.session), ended: self.ended@ }
    }
}

pub open spec fn candidates_view(v: Seq<Candidate>) -> Seq<CandidateV> {
    v.map_values(|c: Candidate| c.view())
}

/// After the first `n` lines: whether they end inside the Decisions
/// section, and its items so far.
pub open spec fn scan(ls: Seq<Seq<char>>, n: int) -> (bool, Seq<Seq<char>>)
    decreases n,
{
    if n <= 0 {
        (false, seq![])
    } else {
        let (inside, items) = scan(ls, n - 1);
        let l = ls[n - 1];
        if has_prefix(l, "## "@) {
            (l == "## Decisions"@, items)
        } else if inside && has_prefix(l, "- "@) {
            (inside, items.push(trim_spec(l.skip(2))))
        } else {
            (inside, items)
        }
    }
}

/// The items of a handoff's `## Decisions` section(s), trimmed.
pub open spec fn decisions_spec(body: Seq<char>) -> Seq<Seq<char>> {
    let ls = lines_of(body);
    scan(ls, ls.len() as int).1
}

fn decisions(body: &str) -> (r: Vec<Vec<char>>)
    ensures
        r.deep_view() == decisions_spec(body@),
{
    let ls = lines(&chars_of(body));
    let ghost lv = ls.deep_view();
    let head = chars_of("## ");
    let item = chars_of("- ");
    let title = chars_of("## Decisions");
    let mut inside = false;
    let mut out: Vec<Vec<char>> = Vec::new();
    let mut i: usize = 0;
    proof {
        assert(out.deep_view() =~= Seq::<Seq<char>>::empty());
    }
    while i < ls.len()
        invariant
            lv == ls.deep_view(),
            head@ == "## "@,
            item@ == "- "@,
            title@ == "## Decisions"@,
            i <= ls@.len(),
            (inside, out.deep_view()) == scan(lv, i as int),
        decreases ls@.len() - i,
    {
        let l = &ls[i];
        proof {
            assert(lv[i as int] == l@);
            reveal_strlit("- ");
        }
        if starts_with(l, &head) {
            inside = chars_eq(l, &title);
        } else if inside && starts_with(l, &item) {
            let rest = slice(l, 2, l.len());
            let t = trim(&rest);
            let ghost before = out.deep_view();
            out.push(t);
            proof {
                assert(rest@ =~= l@.skip(2));
                assert(t.deep_view() =~= t@);
                assert(out.deep_view() =~= before.push(t@));
            }
        }
        i += 1;
    }
    out
}

/// When a handoff ended: the date part of its `ended` field.
pub open spec fn ended_of(body: Seq<char>) -> Seq<char> {
    match get_spec(body, "ended"@) {
        Some(e) => byte_prefix(e, 10),
        None => seq![],
    }
}

/// Every handoff's `ended` field can be cut after its tenth byte.
pub open spec fn cuttable(bodies: Seq<Seq<char>>) -> bool {
    forall|i: int|
        0 <= i < bodies.len() ==> match get_spec(#[trigger] bodies[i], "ended"@) {
            Some(e) => cuts_at(e, 10),
            None => true,
        }
}

/// The decisions of the handoffs in order, each with its session and day.
pub open spec fn flat(bodies: Seq<Seq<char>>) -> Seq<CandidateV>
    decreases bodies.len(),
{
    if bodies.len() == 0 {
        seq![]
    } else {
        let b = bodies.last();
        flat(bodies.drop_last()) + decisions_spec(b).map_values(
            |d: Seq<char>| CandidateV { text: d, session: get_spec(b, "session"@), ended: ended_of(b) },
        )
    }
}

pub open spec fn seen_before(fs: Seq<CandidateV>, k: int) -> bool {
    exists|j: int| 0 <= j < k && (#[trigger] fs[j]).text == fs[k].text
}

/// The first `n` decisions, less the remembered ones and the repeats.
pub open spec fn fresh(fs: Seq<CandidateV>, remembered: Seq<Seq<char>>, n: int) -> Seq<CandidateV>
    decreases n,
{
    if n <= 0 {
        seq![]
    } else {
        let prev = fresh(fs, remembered, n - 1);
        if remembered.contains(fs[n - 1].text) || seen_before(fs, n - 1) {
            prev
        } else {
            prev.push(fs[n - 1])
        }
    }
}

pub open spec fn from_handoffs_spec(bodies: Seq<Seq<char>>, remembered: Seq<Seq<char>>) -> Seq<CandidateV> {
    let fs = flat(bodies);
    fresh(fs, remembered, fs.len() as int)
}

pub open spec fn strs(v: Seq<String>) -> Seq<Seq<char>> {
    v.map_values(|s: String| s@)
}

proof fn lemma_fresh_texts(fs: Seq<CandidateV>, remembered: Seq<Seq<char>>, n: int, t: Seq<char>)
    requires
        0 <= n <= fs.len(),
    ensures
        (exists|k: int| 0 <= k < fresh(fs, remembered, n).len() && (#[trigger] fresh(fs, remembered, n)[k]).text == t)
            <==> (!remembered.contains(t) && exists|j: int| 0 <= j < n && (#[trigger] fs[j]).text == t),
    decreases n,
{
    if n > 0 {
        lemma_fresh_texts(fs, remembered, n - 1, t);
        let prev = fresh(fs, remembered, n - 1);
        let cur = fresh(fs, remembered, n);
        if !(remembered.contains(fs[n - 1].text) || seen_before(fs, n - 1)) {
            assert(cur == prev.push(fs[n - 1]));
            if exists|j: int| 0 <= j < n && (#[trigger] fs[j]).text == t {
                if !remembered.contains(t) {
                    if fs[n - 1].text == t {
                        assert(cur[prev.len() as int].text == t);
                    } else {
                        let j = choose|j: int| 0 <= j < n && (#[trigger] fs[j]).text == t;
                        assert(j < n - 1);
                        let k = choose|k: int| 0 <= k < prev.len() && (#[trigger] prev[k]).text == t;
                        assert(cur[k] == prev[k]);
                    }
                }
            }
            if exists|k: int| 0 <= k < cur.len() && (#[trigger] cur[k]).text == t {
                let k = choose|k: int| 0 <= k < cur.len() && (#[trigger] cur[k]).text == t;
                if k < prev.len() {
                    assert(cur[k] == prev[k]);
                } else {
                    assert(fs[n - 1].text == t);
                }
            }
        } else {
            if exists|j: int| 0 <= j < n && (#[trigger] fs[j]).text == t {
                if !remembered.contains(t) {
                    let j = choose|j: int| 0 <= j < n && (#[trigger] fs[j]).text == t;
                    if j == n - 1 {
                        let j2 = choose|j2: int| 0 <= j2 < n - 1 && (#[trigger] fs[j2]).text == fs[n - 1].text;
                        assert(fs[j2].text == t);
                    }
                }
            }
        }
    }
}

fn has_text(v: &Vec<String>, t: &[char]) -> (r: bool)
    ensures
        r == strs(v@).contains(t@),
{
    let ghost sv = strs(v@);
    let mut i: usize = 0;
    while i < v.len()
        invariant
            sv == strs(v@),
            i <= v@.len(),
            forall|j: int| 0 <= j < i ==> sv[j] != t@,
        decreases v@.len() - i,
    {
        if chars_eq(&chars_of(v[i].as_str()), t) {
            proof {
                assert(sv[i as int] == t@);
            }
            return true;
        }
        i += 1;
    }
    false
}

fn already(out: &Vec<Candidate>, t: &[char]) -> (r: bool)
    ensures
        r == exists|k: int| 0 <= k < out@.len() && (#[trigger] candidates_view(out@)[k]).text == t@,
{
    let ghost ov = candidates_view(out@);
    let mut i: usize = 0;
    while i < out.len()
        invariant
            ov == candidates_view(out@),
            i <= out@.len(),
            forall|j: int| 0 <= j < i ==> (#[trigger] ov[j]).text != t@,
        decreases out@.len() - i,
    {
        proof {
            assert(ov[i as int] == out@[i as int].view());
        }
        if chars_eq(&chars_of(out[i].text.as_str()), t) {
            return true;
        }
        i += 1;
    }
    false
}

/// Newest handoffs first; each decision once, in the order first seen,
/// unless memory already holds it.
pub fn from_handoffs(bodies: &[String], remembered: &Vec<String>) -> (r: Vec<Candidate>)
    requires
        cuttable(strs(bodies@)),
    ensures
        candidates_view(r@) == from_handoffs_spec(strs(bodies@), strs(remembered@)),
{
    let ghost bv = strs(bodies@);
    let ghost rv = strs(remembered@);
    let mut out: Vec<Candidate> = Vec::new();
    let mut b: usize = 0;
    let ghost mut done: Seq<CandidateV> = Seq::empty();
    proof {
        assert(bv.take(0) =~= Seq::<Seq<char>>::empty());
        assert(candidates_view(out@) =~= Seq::<CandidateV>::empty());
    }
    while b < bodies.len()
        invariant
            bv == strs(bodies@),
            rv == strs(remembered@),
            cuttable(bv),
            b <= bodies@.len(),
            done == flat(bv.take(b as int)),
            candidates_view(out@) == fresh(done, rv, done.len() as int),
        decreases bodies@.len() - b,
    {
        let body = bodies[b].as_str();
        proof {
            assert(bv[b as int] == body@);
            assert(bv.take(b + 1).drop_last() =~= bv.take(b as int));
            assert(bv.take(b + 1).last() == body@);
        }
        let session = get(body, "session");
        let ended = match get(body, "ended") {
            Some(e) => {
                proof {
                    assert(cuts_at(e@, 10));
                }
                let p = byte_prefix_exec(&chars_of(e.as_str()), 10);
                string_of(&p)
            },
            None => String::new(),
        };
        let ds = decisions(body);
        let ghost dv = ds.deep_view();
        let ghost add = dv.map_values(
            |d: Seq<char>| CandidateV { text: d, session: get_spec(body@, "session"@), ended: ended_of(body@) },
        );
        let ghost start = done;
        let mut k: usize = 0;
        proof {
            assert(start + add.take(0) =~= start);
        }
        while k < ds.len()
            invariant
                bv == strs(bodies@),
                rv == strs(remembered@),
                dv == ds.deep_view(),
                add.len() == dv.len(),
                forall|j: int| 0 <= j < dv.len() ==> (#[trigger] add[j]).text == dv[j] && add[j].session == get_spec(body@, "session"@) && add[j].ended == ended_of(body@),
                opt_view(session) == get_spec(body@, "session"@),
                ended@ == ended_of(body@),
                k <= ds@.len(),
                done == start + add.take(k as int),
                candidates_view(out@) == fresh(done, rv, done.len() as int),
            decreases ds@.len() - k,
        {
            let t = &ds[k];
            proof {
                assert(dv[k as int] == t@);
                assert(add.take(k + 1) =~= add.take(k as int).push(add[k as int]));
            }
            let ghost next = done.push(add[k as int]);
            let rem = has_text(remembered, t);
            let dup = already(&out, t);
            proof {
                assert(next.len() == done.len() + 1);
                assert(next[done.len() as int] == add[k as int]);
                assert forall|j: int| 0 <= j < done.len() implies next[j] == done[j] by {}
                assert(fresh(done, rv, done.len() as int) == fresh(next, rv, done.len() as int)) by {
                    lemma_fresh_prefix(done, next, rv, done.len() as int);
                }
                lemma_fresh_texts(done, rv, done.len() as int, t@);
                assert(seen_before(next, done.len() as int) == exists|j: int|
                    0 <= j < done.len() && (#[trigger] done[j]).text == t@) by {
                    if seen_before(next, done.len() as int) {
                        let j = choose|j: int| 0 <= j < done.len() && (#[trigger] next[j]).text == next[done.len() as int].text;
                        assert(done[j].text == t@);
                    }
                    if exists|j: int| 0 <= j < done.len() && (#[trigger] done[j]).text == t@ {
                        let j = choose|j: int| 0 <= j < done.len() && (#[trigger] done[j]).text == t@;
                        assert(next[j].text == next[done.len() as int].text);
                    }
                }
            }
            if !rem && !dup {
                let c = Candidate {
                    text: string_of(t),
                    session: match &session {
                        Some(s) => Some(s.clone()),
                        None => None,
                    },
                    ended: ended.clone(),
                };
                let ghost before = candidates_view(out@);
                out.push(c);
                proof {
                    assert(c.view() == add[k as int]);
                    assert(candidates_view(out@) =~= before.push(c.view()));
                }
            }
            proof {
                done = next;
            }
            k += 1;
        }
        proof {
            assert(add.take(ds@.len() as int) =~= add);
            assert(flat(bv.take(b + 1)) =~= flat(bv.take(b as int)) + add);
        }
        b += 1;
    }
    proof {
        assert(bv.take(bodies@.len() as int) =~= bv);
    }
    out
}

/// `fresh` looks only at the entries it is given.
proof fn lemma_fresh_prefix(a: Seq<CandidateV>, b: Seq<CandidateV>, rem: Seq<Seq<char>>, n: int)
    requires
        0 <= n <= a.len(),
        n <= b.len(),
        forall|j: int| 0 <= j < n ==> a[j] == b[j],
    ensures
        fresh(a, rem, n) == fresh(b, rem, n),
    decreases n,
{
    if n > 0 {
        lemma_fresh_prefix(a, b, rem, n - 1);
        assert(seen_before(a, n - 1) == seen_before(b, n - 1)) by {
            if seen_before(a, n - 1) {
                let j = choose|j: int| 0 <= j < n - 1 && (#[trigger] a[j]).text == a[n - 1].text;
                assert(b[j].text == b[n - 1].text);
            }
            if seen_before(b, n - 1) {
                let j = choose|j: int| 0 <= j < n - 1 && (#[trigger] b[j]).text == b[n - 1].text;
                assert(a[j].text == a[n - 1].text);
            }
        }
    }
}

} // verus!
