//! Sets of texts kept as vectors in ascending order with no repeats: the
//! order a sorted set walks them in.

use vstd::prelude::*;

use crate::order::{lemma_seq_lt_irrefl, lemma_seq_lt_total, lemma_seq_lt_trans};
use crate::text::{chars_of, seq_lt, str_eq, str_lt};

verus! {

/// Strictly ascending: sorted, and so without repeats.
pub open spec fn sorted_strs(s: Seq<Seq<char>>) -> bool {
    forall|i: int, j: int| 0 <= i < j < s.len() ==> seq_lt(#[trigger] s[i], #[trigger] s[j])
}

proof fn lemma_insert_to_set(s: Seq<Seq<char>>, p: int, x: Seq<char>)
    requires
        0 <= p <= s.len(),
    ensures
        s.insert(p, x).to_set() == s.to_set().insert(x),
{
    s.insert_ensures(p, x);
    let t = s.insert(p, x);
    assert forall|a: Seq<char>| t.to_set().contains(a) == s.to_set().insert(x).contains(a) by {
        if t.contains(a) {
            let k = choose|k: int| 0 <= k < t.len() && t[k] == a;
            if k < p {
                assert(s[k] == a);
            } else if k > p {
                assert(s[k - 1] == a);
            }
        }
        if s.contains(a) {
            let k = choose|k: int| 0 <= k < s.len() && s[k] == a;
            if k < p {
                assert(t[k] == a);
            } else {
                assert(t[k + 1] == a);
            }
        }
        if a == x {
            assert(t[p] == a);
        }
    }
    assert(t.to_set() =~= s.to_set().insert(x));
}

/// Adds `x` in its place; nothing changes when it is there already.
pub fn insert_str(v: &mut Vec<String>, x: &str)
    requires
        sorted_strs(old(v).deep_view()),
    ensures
        sorted_strs(final(v).deep_view()),
        final(v).deep_view().to_set() == old(v).deep_view().to_set().insert(x@),
{
    let ghost s = v.deep_view();
    let mut p: usize = 0;
    while p < v.len() && str_lt(v[p].as_str(), x)
        invariant
            s == v.deep_view(),
            sorted_strs(s),
            p <= v.len(),
            forall|i: int| 0 <= i < p ==> seq_lt(#[trigger] s[i], x@),
        decreases v.len() - p,
    {
        p += 1;
    }
    if p < v.len() && str_eq(v[p].as_str(), x) {
        proof {
            assert(s[p as int] == x@);
            assert(s.to_set().insert(x@) =~= s.to_set());
        }
        return;
    }
    proof {
        if p < v.len() {
            assert(s[p as int] == v@[p as int]@);
            lemma_seq_lt_total(s[p as int], x@);
        }
    }
    let ghost old_v = v@;
    v.insert(p, x.to_string());
    proof {
        let t = s.insert(p as int, x@);
        s.insert_ensures(p as int, x@);
        assert(v.deep_view() =~= t) by {
            assert forall|k: int| 0 <= k < t.len() implies v.deep_view()[k] == t[k] by {
                if k < p {
                    assert(v@[k] == old_v[k]);
                } else if k > p {
                    assert(v@[k] == old_v[k - 1]);
                }
            }
        }
        assert forall|i: int, j: int| 0 <= i < j < t.len() implies seq_lt(#[trigger] t[i], #[trigger] t[j]) by {
            if j < p {
            } else if j == p {
                assert(t[i] == s[i]);
            } else if i < p {
                assert(t[i] == s[i]);
                assert(t[j] == s[j - 1]);
                lemma_seq_lt_trans(s[i], x@, s[p as int]);
                if j - 1 > p {
                    lemma_seq_lt_trans(s[i], s[p as int], s[j - 1]);
                }
            } else if i == p {
                assert(t[j] == s[j - 1]);
                if j - 1 > p {
                    lemma_seq_lt_trans(x@, s[p as int], s[j - 1]);
                }
            } else {
                assert(t[i] == s[i - 1]);
                assert(t[j] == s[j - 1]);
            }
        }
        lemma_insert_to_set(s, p as int, x@);
    }
}

/// `x` is in `v`.
pub fn has_str(v: &Vec<String>, x: &str) -> (r: bool)
    ensures
        r == v.deep_view().contains(x@),
{
    let mut i: usize = 0;
    while i < v.len()
        invariant
            i <= v.len(),
            forall|k: int| 0 <= k < i ==> v.deep_view()[k] != x@,
        decreases v.len() - i,
    {
        if str_eq(v[i].as_str(), x) {
            proof {
                assert(v.deep_view()[i as int] == x@);
            }
            return true;
        }
        i += 1;
    }
    false
}

/// Adds every text of `w` to `v`.
pub fn insert_all(v: &mut Vec<String>, w: &Vec<String>)
    requires
        sorted_strs(old(v).deep_view()),
    ensures
        sorted_strs(final(v).deep_view()),
        final(v).deep_view().to_set() == old(v).deep_view().to_set() + w.deep_view().to_set(),
{
    let ghost start = v.deep_view().to_set();
    let mut i: usize = 0;
    while i < w.len()
        invariant
            i <= w.len(),
            sorted_strs(v.deep_view()),
            v.deep_view().to_set() == start + w.deep_view().take(i as int).to_set(),
        decreases w.len() - i,
    {
        insert_str(v, w[i].as_str());
        proof {
            let tk = w.deep_view().take(i + 1);
            assert(tk =~= w.deep_view().take(i as int).push(w@[i as int]@));
            w.deep_view().take(i as int).lemma_push_to_set_commute(w@[i as int]@);
            assert(tk.to_set() =~= w.deep_view().take(i as int).to_set().insert(w@[i as int]@));
            assert(v.deep_view().to_set() =~= start + tk.to_set());
        }
        i += 1;
    }
    proof {
        assert(w.deep_view().take(w.len() as int) =~= w.deep_view());
    }
}

/// The texts of `w` in ascending order, each once.
pub fn sorted_set(w: &Vec<String>) -> (r: Vec<String>)
    ensures
        sorted_strs(r.deep_view()),
        r.deep_view().to_set() == w.deep_view().to_set(),
{
    let mut r: Vec<String> = Vec::new();
    proof {
        assert(r.deep_view().to_set() =~= Set::<Seq<char>>::empty());
    }
    insert_all(&mut r, w);
    proof {
        assert(r.deep_view().to_set() =~= w.deep_view().to_set());
    }
    r
}

/// A copy of `v`.
pub fn copy_strs(v: &Vec<String>) -> (r: Vec<String>)
    ensures
        r.deep_view() == v.deep_view(),
        r@ == v@,
{
    let mut r: Vec<String> = Vec::new();
    let mut i: usize = 0;
    while i < v.len()
        invariant
            i <= v.len(),
            r@ == v@.take(i as int),
        decreases v.len() - i,
    {
        r.push(v[i].clone());
        proof {
            assert(v@.take(i + 1) =~= v@.take(i as int).push(v@[i as int]));
        }
        i += 1;
    }
    proof {
        assert(v@.take(v.len() as int) =~= v@);
        assert(r.deep_view() =~= v.deep_view());
    }
    r
}

/// A strictly ascending sequence has as many texts as its set.
pub proof fn lemma_sorted_count(s: Seq<Seq<char>>)
    requires
        sorted_strs(s),
    ensures
        s.to_set().len() == s.len(),
{
    assert forall|i: int, j: int| 0 <= i < s.len() && 0 <= j < s.len() && i != j implies s[i] != s[j] by {
        if i < j {
            assert(seq_lt(s[i], s[j]));
        } else {
            assert(seq_lt(s[j], s[i]));
        }
        if s[i] == s[j] {
            lemma_seq_lt_irrefl(s[i]);
        }
    }
    assert(s.no_duplicates());
    s.unique_seq_to_set();
}

pub proof fn lemma_filter_sorted(s: Seq<Seq<char>>, p: spec_fn(Seq<char>) -> bool)
    requires
        sorted_strs(s),
    ensures
        sorted_strs(s.filter(p)),
    decreases s.len(),
{
    reveal(Seq::filter);
    if s.len() > 0 {
        let d = s.drop_last();
        assert(sorted_strs(d));
        lemma_filter_sorted(d, p);
        let f0 = d.filter(p);
        if p(s.last()) {
            let f = f0.push(s.last());
            assert forall|i: int, j: int| 0 <= i < j < f.len() implies seq_lt(#[trigger] f[i], #[trigger] f[j]) by {
                if j == f.len() - 1 {
                    assert(f0.contains(f0[i]));
                    d.lemma_filter_contains_rev(p, f0[i]);
                    let t = choose|t: int| 0 <= t < d.len() && d[t] == f0[i];
                    assert(s[t] == d[t]);
                }
            }
        }
    }
}

/// The texts of `v` that are not in `w`, in the order of `v`.
pub fn minus(v: &Vec<String>, w: &Vec<String>) -> (r: Vec<String>)
    requires
        sorted_strs(v.deep_view()),
    ensures
        sorted_strs(r.deep_view()),
        r.deep_view().to_set() == v.deep_view().to_set().difference(w.deep_view().to_set()),
{
    let ghost p = |x: Seq<char>| !w.deep_view().contains(x);
    let ghost vd = v.deep_view();
    let mut r: Vec<String> = Vec::new();
    let mut i: usize = 0;
    proof {
        reveal(Seq::filter);
        assert(vd.take(0).filter(p) =~= Seq::<Seq<char>>::empty());
        assert(r.deep_view() =~= Seq::<Seq<char>>::empty());
    }
    while i < v.len()
        invariant
            vd == v.deep_view(),
            p == |x: Seq<char>| !w.deep_view().contains(x),
            i <= v@.len(),
            r.deep_view() == vd.take(i as int).filter(p),
        decreases v@.len() - i,
    {
        proof {
            crate::seqs::lemma_filter_step(vd, p, i as int);
            assert(vd[i as int] == v@[i as int]@);
        }
        if !has_str(w, v[i].as_str()) {
            let ghost before = r.deep_view();
            r.push(v[i].clone());
            proof {
                assert(r.deep_view() =~= before.push(v@[i as int]@));
            }
        }
        i += 1;
    }
    proof {
        assert(vd.take(vd.len() as int) =~= vd);
        lemma_filter_sorted(vd, p);
        broadcast use vstd::seq_lib::group_filter_ensures;
        assert forall|a: Seq<char>| r.deep_view().to_set().contains(a) == vd.to_set().difference(w.deep_view().to_set()).contains(a) by {
            if r.deep_view().contains(a) {
                vd.lemma_filter_contains_rev(p, a);
                let k = choose|k: int| 0 <= k < r.deep_view().len() && r.deep_view()[k] == a;
                assert(p(r.deep_view()[k]));
            }
            if vd.contains(a) && !w.deep_view().contains(a) {
                let k = choose|k: int| 0 <= k < vd.len() && vd[k] == a;
                assert(p(vd[k]));
            }
        }
        assert(r.deep_view().to_set() =~= vd.to_set().difference(w.deep_view().to_set()));
    }
    r
}

} // verus!
