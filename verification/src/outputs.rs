//! Reversible output store. Every compressed command output keeps its
//! original under `<local>/outputs/<id>.out` with a `<id>.json` sidecar.
//! This is the raw material for handoffs and for `relay get`.
//!
//! Spill: some harnesses run tool commands in a sandbox where `.git/`
//! is read-only. When the local tier cannot be written, the original goes
//! to a per-project dir under the system temp dir and is absorbed into
//! the local tier by the next hook, which runs outside the sandbox. The
//! spill is a transient buffer, not a third tier.
//!
//! The files are written, read and moved by the caller; which ids are
//! valid, which sidecars count and in what order they list is decided
//! here.

use vstd::prelude::*;

use crate::order::{lemma_seq_lt_irrefl, lemma_seq_lt_total, lemma_seq_lt_trans};
use crate::paths::{join, join_spec};
use crate::text::{chars_of, contains_char, contains_seq, seq_lt, str_eq, str_lt, string_of, trim, trim_spec};

verus! {

#[derive(Debug, Clone)]
pub struct OutputMeta {
    pub id: String,
    pub ts: String,
    pub session: Option<String>,
    pub cwd: String,
    pub cmd: String,
    pub exit: i32,
    pub filter: String,
    pub bytes_in: usize,
    pub bytes_out: usize,
    pub tokens_in: usize,
    pub tokens_out: usize,
}

impl OutputMeta {
    /// Tokens the compression saved.
    pub fn saved(&self) -> (r: usize)
        ensures
            r == if self.tokens_in >= self.tokens_out {
                self.tokens_in - self.tokens_out
            } else {
                0
            },
    {
        self.tokens_in.saturating_sub(self.tokens_out)
    }

    pub fn copy(&self) -> (r: OutputMeta)
        ensures
            r == *self,
    {
        OutputMeta {
            id: self.id.clone(),
            ts: self.ts.clone(),
            session: match &self.session {
                Some(s) => Some(s.clone()),
                None => None,
            },
            cwd: self.cwd.clone(),
            cmd: self.cmd.clone(),
            exit: self.exit,
            filter: self.filter.clone(),
            bytes_in: self.bytes_in,
            bytes_out: self.bytes_out,
            tokens_in: self.tokens_in,
            tokens_out: self.tokens_out,
        }
    }
}

/// An id `relay get` takes: not empty once trimmed, and no path in it.
pub open spec fn valid_id_spec(id: Seq<char>) -> bool {
    let t = trim_spec(id);
    t.len() > 0 && !t.contains('/') && !t.contains('\\') && !contains_seq(t, ".."@)
}

pub fn valid_id(id: &str) -> (r: bool)
    ensures
        r == valid_id_spec(id@),
{
    let t = trim(&chars_of(id));
    t.len() > 0 && !contains_char(&t, '/') && !contains_char(&t, '\\') && !crate::text::contains(&t, &chars_of(".."))
}

/// The message for an id with no stored original.
pub open spec fn unknown_spec(id: Seq<char>) -> Seq<char> {
    "no stored output with id "@ + id
}

/// No stored original has this id (or the id is not one relay makes).
#[derive(Debug)]
pub struct Unknown(pub String);

impl Unknown {
    pub fn message(&self) -> (r: String)
        ensures
            r@ == unknown_spec(self.0@),
    {
        let mut v = chars_of("no stored output with id ");
        crate::fmt::push_text(&mut v, self.0.as_str());
        string_of(&v)
    }
}

pub open spec fn meta_file_spec(dir: Seq<char>, id: Seq<char>) -> Seq<char> {
    join_spec(dir, id + ".json"@)
}

pub open spec fn out_file_spec(dir: Seq<char>, id: Seq<char>) -> Seq<char> {
    join_spec(dir, id + ".out"@)
}

/// Where the sidecar of `id` lives in `dir`.
pub fn meta_file(dir: &str, id: &str) -> (r: String)
    ensures
        r@ == meta_file_spec(dir@, id@),
{
    let mut v = chars_of(id);
    crate::fmt::push_text(&mut v, ".json");
    join(dir, string_of(&v).as_str())
}

/// Where the original of `id` lives in `dir`.
pub fn out_file(dir: &str, id: &str) -> (r: String)
    ensures
        r@ == out_file_spec(dir@, id@),
{
    let mut v = chars_of(id);
    crate::fmt::push_text(&mut v, ".out");
    join(dir, string_of(&v).as_str())
}

/// `a` lists before `b`: older first, then by id.
pub open spec fn listed_before(a: (Seq<char>, Seq<char>), b: (Seq<char>, Seq<char>)) -> bool {
    seq_lt(a.0, b.0) || (a.0 == b.0 && seq_lt(a.1, b.1))
}

pub open spec fn key_of(m: OutputMeta) -> (Seq<char>, Seq<char>) {
    (m.ts@, m.id@)
}

pub open spec fn keys(ms: Seq<OutputMeta>) -> Seq<(Seq<char>, Seq<char>)> {
    ms.map_values(|m: OutputMeta| key_of(m))
}

/// Listed in order: no entry lists before one ahead of it.
pub open spec fn in_list_order(ks: Seq<(Seq<char>, Seq<char>)>) -> bool {
    forall|i: int, j: int| 0 <= i < j < ks.len() ==> !listed_before(#[trigger] ks[j], #[trigger] ks[i])
}

pub open spec fn ids_of(ms: Seq<OutputMeta>) -> Seq<Seq<char>> {
    ms.map_values(|m: OutputMeta| m.id@)
}

/// The ids that `dedup` keeps: each id's first sidecar, local tier first.
pub open spec fn first_of_id(ms: Seq<OutputMeta>, n: int) -> Seq<OutputMeta>
    decreases n,
{
    if n <= 0 {
        seq![]
    } else {
        let prev = first_of_id(ms, n - 1);
        if ids_of(prev).contains(ms[n - 1].id@) {
            prev
        } else {
            prev.push(ms[n - 1])
        }
    }
}

proof fn lemma_before_total(a: (Seq<char>, Seq<char>), b: (Seq<char>, Seq<char>))
    ensures
        a == b || listed_before(a, b) || listed_before(b, a),
{
    lemma_seq_lt_total(a.0, b.0);
    if a.0 == b.0 {
        lemma_seq_lt_total(a.1, b.1);
    }
}

proof fn lemma_before_trans(a: (Seq<char>, Seq<char>), b: (Seq<char>, Seq<char>), c: (Seq<char>, Seq<char>))
    requires
        listed_before(a, b),
        listed_before(b, c),
    ensures
        listed_before(a, c),
{
    if seq_lt(a.0, b.0) && seq_lt(b.0, c.0) {
        lemma_seq_lt_trans(a.0, b.0, c.0);
    } else if seq_lt(a.0, b.0) {
    } else if seq_lt(b.0, c.0) {
    } else {
        lemma_seq_lt_trans(a.1, b.1, c.1);
    }
}

proof fn lemma_before_irrefl(a: (Seq<char>, Seq<char>))
    ensures
        !listed_before(a, a),
{
    lemma_seq_lt_irrefl(a.0);
    lemma_seq_lt_irrefl(a.1);
}

proof fn lemma_before_asym(a: (Seq<char>, Seq<char>), b: (Seq<char>, Seq<char>))
    requires
        listed_before(a, b),
    ensures
        !listed_before(b, a),
{
    if listed_before(b, a) {
        lemma_before_trans(a, b, a);
        lemma_before_irrefl(a);
    }
}

fn before_exec(a: &OutputMeta, b: &OutputMeta) -> (r: bool)
    ensures
        r == listed_before(key_of(*a), key_of(*b)),
{
    str_lt(a.ts.as_str(), b.ts.as_str()) || (str_eq(a.ts.as_str(), b.ts.as_str()) && str_lt(
        a.id.as_str(),
        b.id.as_str(),
    ))
}

/// The sidecars of both tiers as `relay` lists them: each id once (its
/// first sidecar, the local tier read before the spill), oldest first and
/// then by id.
pub fn merge(found: &Vec<OutputMeta>) -> (r: Vec<OutputMeta>)
    ensures
        r@.to_multiset() == first_of_id(found@, found@.len() as int).to_multiset(),
        in_list_order(keys(r@)),
{
    let mut kept: Vec<OutputMeta> = Vec::new();
    let mut i: usize = 0;
    proof {
        assert(kept@ =~= first_of_id(found@, 0));
    }
    while i < found.len()
        invariant
            i <= found@.len(),
            kept@ == first_of_id(found@, i as int),
        decreases found@.len() - i,
    {
        let m = &found[i];
        let mut dup = false;
        let mut k: usize = 0;
        while k < kept.len()
            invariant
                k <= kept@.len(),
                dup == exists|j: int| 0 <= j < k && kept@[j].id@ == m.id@,
            decreases kept@.len() - k,
        {
            if str_eq(kept[k].id.as_str(), m.id.as_str()) {
                dup = true;
            }
            k += 1;
        }
        proof {
            if dup {
                let j = choose|j: int| 0 <= j < kept@.len() && kept@[j].id@ == m.id@;
                assert(ids_of(kept@)[j] == m.id@);
            }
            if ids_of(kept@).contains(m.id@) {
                let j = choose|j: int| 0 <= j < ids_of(kept@).len() && ids_of(kept@)[j] == m.id@;
                assert(kept@[j].id@ == m.id@);
            }
        }
        if !dup {
            kept.push(m.copy());
        }
        i += 1;
    }
    // Insertion sort by (ts, id).
    let mut out: Vec<OutputMeta> = Vec::new();
    let ghost src = kept@;
    let mut j: usize = 0;
    proof {
        assert(src.take(0) =~= out@);
    }
    while j < kept.len()
        invariant
            src == kept@,
            j <= kept@.len(),
            in_list_order(keys(out@)),
            out@.to_multiset() == src.take(j as int).to_multiset(),
        decreases kept@.len() - j,
    {
        let m = kept[j].copy();
        let mut p: usize = 0;
        while p < out.len() && !before_exec(&m, &out[p])
            invariant
                p <= out@.len(),
                forall|a: int| 0 <= a < p ==> !listed_before(key_of(m), #[trigger] keys(out@)[a]),
            decreases out@.len() - p,
        {
            p += 1;
        }
        let ghost before = out@;
        out.insert(p, m);
        proof {
            before.insert_ensures(p as int, m);
            let ks = keys(out@);
            assert forall|a: int, b: int| 0 <= a < b < ks.len() implies !listed_before(#[trigger] ks[b], #[trigger] ks[a]) by {
                let kb = keys(before);
                if b < p {
                    assert(ks[a] == kb[a] && ks[b] == kb[b]);
                } else if b == p {
                    assert(ks[a] == kb[a]);
                    assert(!listed_before(key_of(m), kb[a]));
                } else if a < p {
                    assert(ks[a] == kb[a] && ks[b] == kb[b - 1]);
                } else if a == p {
                    assert(ks[b] == kb[b - 1]);
                    if p < before.len() {
                        assert(listed_before(key_of(m), kb[p as int]));
                        if b - 1 > p {
                            assert(!listed_before(kb[b - 1], kb[p as int]));
                            lemma_before_total(kb[p as int], kb[b - 1]);
                            if listed_before(kb[b - 1], key_of(m)) {
                                if kb[p as int] == kb[b - 1] {
                                    lemma_before_asym(key_of(m), kb[p as int]);
                                } else {
                                    lemma_before_trans(kb[p as int], kb[b - 1], key_of(m));
                                    lemma_before_asym(key_of(m), kb[p as int]);
                                }
                            }
                        } else {
                            lemma_before_asym(key_of(m), kb[p as int]);
                        }
                    }
                } else {
                    assert(ks[a] == kb[a - 1] && ks[b] == kb[b - 1]);
                }
            }
            assert(src.take(j + 1) =~= src.take(j as int).push(m));
            assert(out@.to_multiset() =~= before.to_multiset().insert(m)) by {
                lemma_insert_multiset(before, p as int, m);
            }
            src.take(j as int).to_multiset_ensures();
        }
        j += 1;
    }
    proof {
        assert(src.take(kept@.len() as int) =~= src);
    }
    out
}

proof fn lemma_insert_multiset(s: Seq<OutputMeta>, p: int, x: OutputMeta)
    requires
        0 <= p <= s.len(),
    ensures
        s.insert(p, x).to_multiset() =~= s.to_multiset().insert(x),
{
    let a = s.subrange(0, p);
    let b = s.subrange(p, s.len() as int);
    assert(s =~= a + b);
    assert(s.insert(p, x) =~= a.push(x) + b);
    vstd::seq_lib::lemma_multiset_commutative(a.push(x), b);
    vstd::seq_lib::lemma_multiset_commutative(a, b);
    a.to_multiset_ensures();
}


/// The sidecars `dedup` keeps have each id once.
proof fn lemma_first_ids_unique(ms: Seq<OutputMeta>, n: int)
    requires
        0 <= n <= ms.len(),
    ensures
        forall|i: int, j: int|
            0 <= i < j < first_of_id(ms, n).len() ==> first_of_id(ms, n)[i].id@ != first_of_id(ms, n)[j].id@,
        forall|i: int| 0 <= i < first_of_id(ms, n).len() ==> ms.contains(#[trigger] first_of_id(ms, n)[i]),
    decreases n,
{
    if n > 0 {
        lemma_first_ids_unique(ms, n - 1);
        let prev = first_of_id(ms, n - 1);
        if !ids_of(prev).contains(ms[n - 1].id@) {
            let cur = prev.push(ms[n - 1]);
            assert forall|i: int, j: int| 0 <= i < j < cur.len() implies cur[i].id@ != cur[j].id@ by {
                if j == cur.len() - 1 {
                    assert(ids_of(prev)[i] == prev[i].id@);
                }
            }
            assert forall|i: int| 0 <= i < cur.len() implies ms.contains(#[trigger] cur[i]) by {
                if i == cur.len() - 1 {
                    assert(ms[n - 1] == cur[i]);
                } else {
                    assert(cur[i] == prev[i]);
                }
            }
        }
    }
}

/// The store lists each id once, and only sidecars it found: however
/// many tiers hold an id, `merge` keeps one of them.
pub proof fn law_each_id_listed_once(found: Seq<OutputMeta>, listed: Seq<OutputMeta>)
    requires
        listed.to_multiset() == first_of_id(found, found.len() as int).to_multiset(),
    ensures
        forall|i: int, j: int| 0 <= i < j < listed.len() ==> listed[i].id@ != listed[j].id@,
        forall|i: int| 0 <= i < listed.len() ==> found.contains(#[trigger] listed[i]),
{
    let fo = first_of_id(found, found.len() as int);
    lemma_first_ids_unique(found, found.len() as int);
    assert(fo.no_duplicates()) by {
        assert forall|i: int, j: int| 0 <= i < fo.len() && 0 <= j < fo.len() && i != j implies fo[i] != fo[j] by {
            if i < j {
                assert(fo[i].id@ != fo[j].id@);
            } else {
                assert(fo[j].id@ != fo[i].id@);
            }
        }
    }
    fo.lemma_multiset_has_no_duplicates();
    listed.lemma_multiset_has_no_duplicates_conv();
    assert forall|i: int| 0 <= i < listed.len() implies fo.contains(#[trigger] listed[i]) by {
        vstd::seq_lib::to_multiset_contains(listed, listed[i]);
        vstd::seq_lib::to_multiset_contains(fo, listed[i]);
    }
    assert forall|i: int, j: int| 0 <= i < j < listed.len() implies listed[i].id@ != listed[j].id@ by {
        assert(fo.contains(listed[i]));
        assert(fo.contains(listed[j]));
        let p = choose|p: int| 0 <= p < fo.len() && fo[p] == listed[i];
        let q = choose|q: int| 0 <= q < fo.len() && fo[q] == listed[j];
        assert(listed[i] != listed[j]);
        if p < q {
            assert(fo[p].id@ != fo[q].id@);
        } else if q < p {
            assert(fo[q].id@ != fo[p].id@);
        }
    }
    assert forall|i: int| 0 <= i < listed.len() implies found.contains(#[trigger] listed[i]) by {
        assert(fo.contains(listed[i]));
        let p = choose|p: int| 0 <= p < fo.len() && fo[p] == listed[i];
        assert(found.contains(fo[p]));
    }
}

/// The stored outputs of one session, in list order.
pub open spec fn of_session(ms: Seq<OutputMeta>, session: Seq<char>) -> Seq<OutputMeta> {
    ms.filter(|m: OutputMeta| m.session is Some && m.session->0@ == session)
}

pub fn for_session(ms: &Vec<OutputMeta>, session: &str) -> (r: Vec<OutputMeta>)
    ensures
        r@ == of_session(ms@, session@),
{
    let mut out: Vec<OutputMeta> = Vec::new();
    let mut i: usize = 0;
    proof {
        assert(ms@.take(0).filter(|m: OutputMeta| m.session is Some && m.session->0@ == session@) =~= out@);
    }
    while i < ms.len()
        invariant
            i <= ms@.len(),
            out@ == ms@.take(i as int).filter(|m: OutputMeta| m.session is Some && m.session->0@ == session@),
        decreases ms@.len() - i,
    {
        proof {
            crate::seqs::lemma_filter_step(ms@, |m: OutputMeta| m.session is Some && m.session->0@ == session@, i as int);
        }
        let keep = match &ms[i].session {
            Some(s) => str_eq(s.as_str(), session),
            None => false,
        };
        if keep {
            out.push(ms[i].copy());
        }
        i += 1;
    }
    proof {
        assert(ms@.take(ms@.len() as int) =~= ms@);
    }
    out
}

} // verus!
