//! Numbers in ascending order, for medians and percentiles.

use vstd::prelude::*;
use vstd::relations::sorted_by;
use vstd::seq_lib::lemma_sorted_unique;
use vstd::seq_lib::lemma_multiset_commutative;

verus! {

pub open spec fn leq_u64() -> spec_fn(u64, u64) -> bool {
    |a: u64, b: u64| a <= b
}

/// `s` in ascending order.
pub open spec fn ascending(s: Seq<u64>) -> Seq<u64> {
    s.sort_by(leq_u64())
}

proof fn lemma_leq_total()
    ensures
        vstd::relations::total_ordering(leq_u64()),
{
}

proof fn lemma_insert_multiset(s: Seq<u64>, p: int, x: u64)
    requires
        0 <= p <= s.len(),
    ensures
        s.insert(p, x).to_multiset() =~= s.to_multiset().insert(x),
{
    let a = s.subrange(0, p);
    let b = s.subrange(p, s.len() as int);
    assert(s =~= a + b);
    lemma_multiset_commutative(a.push(x), b);
    lemma_multiset_commutative(a, b);
    a.to_multiset_ensures();
}

/// The values of `v`, smallest first.
pub fn sort_u64(v: &[u64]) -> (r: Vec<u64>)
    ensures
        r@ == ascending(v@),
{
    let mut out: Vec<u64> = Vec::new();
    let mut i: usize = 0;
    proof {
        assert(v@.take(0) =~= out@);
    }
    while i < v.len()
        invariant
            i <= v.len(),
            sorted_by(out@, leq_u64()),
            out@.to_multiset() == v@.take(i as int).to_multiset(),
        decreases v.len() - i,
    {
        let x = v[i];
        let mut p: usize = 0;
        while p < out.len() && out[p] <= x
            invariant
                p <= out.len(),
                forall|k: int| 0 <= k < p ==> out@[k] <= x,
            decreases out.len() - p,
        {
            p += 1;
        }
        let ghost before = out@;
        out.insert(p, x);
        proof {
            lemma_insert_multiset(before, p as int, x);
            assert(v@.take(i + 1) =~= v@.take(i as int).push(x));
            v@.take(i as int).to_multiset_ensures();
            assert forall|a: int, b: int| 0 <= a < b < out@.len() implies #[trigger] (leq_u64())(
                out@[a],
                out@[b],
            ) by {
                before.insert_ensures(p as int, x);
                if b < p {
                    assert((leq_u64())(before[a], before[b]));
                } else if b == p {
                    assert(out@[a] == before[a]);
                } else if a < p {
                    assert(out@[b] == before[b - 1]);
                    assert(out@[a] == before[a]);
                    assert((leq_u64())(before[a], before[b - 1]));
                } else if a == p {
                    assert(out@[b] == before[b - 1]);
                    assert(!(before[p as int] <= x));
                    if b - 1 > p {
                        assert((leq_u64())(before[p as int], before[b - 1]));
                    }
                } else {
                    assert(out@[b] == before[b - 1]);
                    assert(out@[a] == before[a - 1]);
                    assert((leq_u64())(before[a - 1], before[b - 1]));
                }
            }
        }
        i += 1;
    }
    proof {
        assert(v@.take(v.len() as int) =~= v@);
        lemma_leq_total();
        v@.lemma_sort_by_ensures(leq_u64());
        lemma_sorted_unique(out@, ascending(v@), leq_u64());
    }
    out
}

} // verus!
