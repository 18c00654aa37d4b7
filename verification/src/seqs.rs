//! Facts about sequences that the loops of the library lean on.

use vstd::prelude::*;

verus! {

/// Filtering one more element of a prefix.
pub proof fn lemma_filter_step<A>(s: Seq<A>, pred: spec_fn(A) -> bool, j: int)
    requires
        0 <= j < s.len(),
    ensures
        s.take(j + 1).filter(pred) == if pred(s[j]) {
            s.take(j).filter(pred).push(s[j])
        } else {
            s.take(j).filter(pred)
        },
{
    reveal(Seq::filter);
    assert(s.take(j + 1).drop_last() =~= s.take(j));
    assert(s.take(j + 1).last() == s[j]);
}

/// A filtered prefix is a prefix of the filtered whole.
pub proof fn lemma_filter_prefix<A>(s: Seq<A>, pred: spec_fn(A) -> bool, j: int)
    requires
        0 <= j <= s.len(),
    ensures
        s.take(j).filter(pred).len() <= s.filter(pred).len(),
        s.filter(pred).take(s.take(j).filter(pred).len() as int) == s.take(j).filter(pred),
    decreases s.len() - j,
{
    if j < s.len() {
        lemma_filter_prefix(s, pred, j + 1);
        lemma_filter_step(s, pred, j);
        let a = s.take(j).filter(pred);
        let b = s.take(j + 1).filter(pred);
        let f = s.filter(pred);
        if pred(s[j]) {
            assert(f.take(a.len() as int) =~= b.take(a.len() as int));
            assert(b.take(a.len() as int) =~= a);
        }
    } else {
        assert(s.take(j) =~= s);
        assert(s.filter(pred).take(s.filter(pred).len() as int) =~= s.filter(pred));
    }
}

/// The whole sequence as its longest prefix.
pub proof fn lemma_take_all<A>(s: Seq<A>)
    ensures
        s.take(s.len() as int) == s,
{
    assert(s.take(s.len() as int) =~= s);
}

/// The sum of `f` over `s`.
pub open spec fn total<A>(s: Seq<A>, f: spec_fn(A) -> nat) -> nat
    decreases s.len(),
{
    if s.len() == 0 {
        0
    } else {
        total(s.drop_last(), f) + f(s.last())
    }
}

pub proof fn lemma_total_update<A>(s: Seq<A>, f: spec_fn(A) -> nat, k: int, x: A)
    requires
        0 <= k < s.len(),
    ensures
        total(s.update(k, x), f) + f(s[k]) == total(s, f) + f(x),
    decreases s.len(),
{
    if k < s.len() - 1 {
        lemma_total_update(s.drop_last(), f, k, x);
        assert(s.update(k, x).drop_last() =~= s.drop_last().update(k, x));
    } else {
        assert(s.update(k, x).drop_last() =~= s.drop_last());
    }
}

pub proof fn lemma_total_bound<A>(s: Seq<A>, f: spec_fn(A) -> nat, k: int)
    requires
        0 <= k < s.len(),
    ensures
        f(s[k]) <= total(s, f),
    decreases s.len(),
{
    if k < s.len() - 1 {
        lemma_total_bound(s.drop_last(), f, k);
    }
}

pub proof fn lemma_total_push<A>(s: Seq<A>, f: spec_fn(A) -> nat, x: A)
    ensures
        total(s.push(x), f) == total(s, f) + f(x),
{
    assert(s.push(x).drop_last() =~= s);
}

pub proof fn lemma_total_prefix<A>(s: Seq<A>, f: spec_fn(A) -> nat, i: int)
    requires
        0 <= i < s.len(),
    ensures
        total(s.take(i + 1), f) == total(s.take(i), f) + f(s[i]),
{
    assert(s.take(i + 1).drop_last() =~= s.take(i));
}

pub proof fn lemma_total_prefix_le<A>(s: Seq<A>, f: spec_fn(A) -> nat, i: int)
    requires
        0 <= i <= s.len(),
    ensures
        total(s.take(i), f) <= total(s, f),
    decreases s.len() - i,
{
    if i < s.len() {
        lemma_total_prefix_le(s, f, i + 1);
        lemma_total_prefix(s, f, i);
    } else {
        assert(s.take(i) =~= s);
    }
}

pub proof fn lemma_total_concat<A>(a: Seq<A>, b: Seq<A>, f: spec_fn(A) -> nat)
    ensures
        total(a + b, f) == total(a, f) + total(b, f),
    decreases b.len(),
{
    if b.len() == 0 {
        assert(a + b =~= a);
    } else {
        lemma_total_concat(a, b.drop_last(), f);
        assert((a + b).drop_last() =~= a + b.drop_last());
        assert((a + b).last() == b.last());
    }
}

/// Appending five pieces one after another appends their concatenation.
pub proof fn lemma_cat5<A>(s: Seq<A>, a: Seq<A>, b: Seq<A>, c: Seq<A>, d: Seq<A>, e: Seq<A>)
    ensures
        s + a + b + c + d + e == s + (a + b + c + d + e),
{
    assert(s + a + b + c + d + e =~= s + (a + b + c + d + e));
}

pub proof fn lemma_cat3<A>(s: Seq<A>, a: Seq<A>, b: Seq<A>, c: Seq<A>)
    ensures
        s + a + b + c == s + (a + b + c),
{
    assert(s + a + b + c =~= s + (a + b + c));
}

} // verus!
