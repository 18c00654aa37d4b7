//! Stable orders: the positions of a list of keys in the order their
//! keys sort, ties kept in list order. Numbers compare as numbers, texts
//! as `str` compares them (character by character).

use vstd::prelude::*;

use crate::text::{chars_lt, seq_lt};

verus! {

/// `x` sorts before `y`: ascending, or descending when `desc`.
pub open spec fn num_before(x: u128, y: u128, desc: bool) -> bool {
    if desc {
        y < x
    } else {
        x < y
    }
}

pub open spec fn text_before(x: Seq<char>, y: Seq<char>, desc: bool) -> bool {
    if desc {
        seq_lt(y, x)
    } else {
        seq_lt(x, y)
    }
}

/// `r` lists each position of `0..n` once.
pub open spec fn is_order(r: Seq<usize>, n: nat) -> bool {
    &&& r.len() == n
    &&& forall|a: int| 0 <= a < r.len() ==> (#[trigger] r[a]) < n
    &&& forall|j: usize| j < n ==> #[trigger] r.contains(j)
}

/// `r` orders `keys` stably by `before`.
pub open spec fn num_order(r: Seq<usize>, keys: Seq<u128>, desc: bool) -> bool {
    &&& is_order(r, keys.len())
    &&& forall|a: int, b: int|
        0 <= a < b < r.len() ==> !num_before(keys[#[trigger] r[b] as int], keys[#[trigger] r[a] as int], desc)
    &&& forall|a: int, b: int|
        0 <= a < b < r.len() && keys[#[trigger] r[a] as int] == keys[#[trigger] r[b] as int] ==> r[a] < r[b]
}

pub open spec fn text_order(r: Seq<usize>, keys: Seq<Seq<char>>, desc: bool) -> bool {
    &&& is_order(r, keys.len())
    &&& forall|a: int, b: int|
        0 <= a < b < r.len() ==> !text_before(keys[#[trigger] r[b] as int], keys[#[trigger] r[a] as int], desc)
    &&& forall|a: int, b: int|
        0 <= a < b < r.len() && keys[#[trigger] r[a] as int] == keys[#[trigger] r[b] as int] ==> r[a] < r[b]
}

pub proof fn lemma_seq_lt_irrefl(x: Seq<char>)
    ensures
        !seq_lt(x, x),
    decreases x.len(),
{
    if x.len() > 0 {
        lemma_seq_lt_irrefl(x.drop_first());
    }
}

pub proof fn lemma_seq_lt_trans(x: Seq<char>, y: Seq<char>, z: Seq<char>)
    requires
        seq_lt(x, y),
        seq_lt(y, z),
    ensures
        seq_lt(x, z),
    decreases x.len(),
{
    if x.len() > 0 && y.len() > 0 && z.len() > 0 {
        if x[0] == y[0] && y[0] == z[0] {
            lemma_seq_lt_trans(x.drop_first(), y.drop_first(), z.drop_first());
        }
    }
}

proof fn lemma_char_codes_differ(c: char, d: char)
    requires
        c != d,
    ensures
        (c as u32) != (d as u32),
{
    assert(0 <= (c as int) <= 0x10FFFF);
    assert(0 <= (d as int) <= 0x10FFFF);
    assert((c as u32) as int == c as int);
    assert((d as u32) as int == d as int);
}

pub proof fn lemma_seq_lt_total(x: Seq<char>, y: Seq<char>)
    ensures
        seq_lt(x, y) || seq_lt(y, x) || x == y,
    decreases x.len(),
{
    if x.len() == 0 && y.len() == 0 {
        assert(x =~= y);
    } else if x.len() > 0 && y.len() > 0 && x[0] == y[0] {
        lemma_seq_lt_total(x.drop_first(), y.drop_first());
        if x.drop_first() == y.drop_first() {
            assert(x.drop_first().len() == y.drop_first().len());
            assert(x.len() == y.len());
            assert forall|i: int| 0 <= i < x.len() implies x[i] == y[i] by {
                if i > 0 {
                    assert(x[i] == x.drop_first()[i - 1]);
                    assert(y[i] == y.drop_first()[i - 1]);
                }
            }
            assert(x =~= y);
        }
    } else if x.len() > 0 && y.len() > 0 {
        lemma_char_codes_differ(x[0], y[0]);
    }
}

pub proof fn lemma_seq_lt_asym(x: Seq<char>, y: Seq<char>)
    requires
        seq_lt(x, y),
    ensures
        !seq_lt(y, x),
{
    if seq_lt(y, x) {
        lemma_seq_lt_trans(x, y, x);
        lemma_seq_lt_irrefl(x);
    }
}

pub fn num_before_exec(x: u128, y: u128, desc: bool) -> (r: bool)
    ensures
        r == num_before(x, y, desc),
{
    if desc {
        y < x
    } else {
        x < y
    }
}

pub fn text_before_exec(x: &[char], y: &[char], desc: bool) -> (r: bool)
    ensures
        r == text_before(x@, y@, desc),
{
    if desc {
        chars_lt(y, x)
    } else {
        chars_lt(x, y)
    }
}

pub(crate) proof fn lemma_insert_contains(r: Seq<usize>, p: int, x: usize, j: usize)
    requires
        0 <= p <= r.len(),
        r.contains(j) || j == x,
    ensures
        r.insert(p, x).contains(j),
{
    r.insert_ensures(p, x);
    if j == x {
        assert(r.insert(p, x)[p] == x);
    } else {
        let k = choose|k: int| 0 <= k < r.len() && r[k] == j;
        if k < p {
            assert(r.insert(p, x)[k] == j);
        } else {
            assert(r.insert(p, x)[k + 1] == j);
        }
    }
}

/// Positions of `keys` in ascending (or, with `desc`, descending) order
/// of their values; equal keys keep their order.
pub fn order_by_num(keys: &[u128], desc: bool) -> (r: Vec<usize>)
    ensures
        num_order(r@, keys@, desc),
{
    let mut r: Vec<usize> = Vec::new();
    let mut i: usize = 0;
    while i < keys.len()
        invariant
            i <= keys.len(),
            r@.len() == i,
            forall|a: int| 0 <= a < r@.len() ==> (#[trigger] r@[a]) < i,
            forall|j: usize| j < i ==> #[trigger] r@.contains(j),
            forall|a: int, b: int|
                0 <= a < b < r@.len() ==> !num_before(keys@[#[trigger] r@[b] as int], keys@[#[trigger] r@[a] as int], desc),
            forall|a: int, b: int|
                0 <= a < b < r@.len() && keys@[#[trigger] r@[a] as int] == keys@[#[trigger] r@[b] as int] ==> r@[a] < r@[b],
        decreases keys.len() - i,
    {
        let k = keys[i];
        let mut p: usize = 0;
        while p < r.len() && !num_before_exec(k, keys[r[p]], desc)
            invariant
                p <= r@.len(),
                forall|a: int| 0 <= a < r@.len() ==> (#[trigger] r@[a]) < i,
                i < keys.len(),
                k == keys@[i as int],
                forall|a: int| 0 <= a < p ==> !num_before(k, keys@[#[trigger] r@[a] as int], desc),
            decreases r@.len() - p,
        {
            p += 1;
        }
        let ghost before = r@;
        r.insert(p, i);
        proof {
            before.insert_ensures(p as int, i);
            assert forall|j: usize| j < i + 1 implies #[trigger] r@.contains(j) by {
                if j < i {
                    lemma_insert_contains(before, p as int, i, j);
                } else {
                    lemma_insert_contains(before, p as int, i, i);
                }
            }
            assert forall|a: int| 0 <= a < r@.len() implies (#[trigger] r@[a]) < i + 1 by {
                if a < p {
                } else if a > p {
                    assert(r@[a] == before[a - 1]);
                }
            }
            assert forall|a: int, b: int| 0 <= a < b < r@.len() implies !num_before(
                keys@[#[trigger] r@[b] as int],
                keys@[#[trigger] r@[a] as int],
                desc,
            ) by {
                if b < p {
                } else if b == p {
                    assert(r@[a] == before[a]);
                } else if a < p {
                    assert(r@[b] == before[b - 1]);
                    assert(r@[a] == before[a]);
                } else if a == p {
                    assert(r@[b] == before[b - 1]);
                    if b - 1 > p {
                        assert(!num_before(keys@[before[b - 1] as int], keys@[before[p as int] as int], desc));
                    }
                } else {
                    assert(r@[b] == before[b - 1]);
                    assert(r@[a] == before[a - 1]);
                }
            }
            assert forall|a: int, b: int|
                0 <= a < b < r@.len() && keys@[#[trigger] r@[a] as int] == keys@[#[trigger] r@[b] as int] implies r@[a] < r@[b] by {
                if b < p {
                } else if b == p {
                    assert(r@[a] == before[a]);
                } else if a < p {
                    assert(r@[b] == before[b - 1]);
                    assert(r@[a] == before[a]);
                } else if a == p {
                    assert(r@[b] == before[b - 1]);
                    assert(num_before(k, keys@[before[p as int] as int], desc));
                    if b - 1 > p {
                        assert(!num_before(keys@[before[b - 1] as int], keys@[before[p as int] as int], desc));
                    }
                } else {
                    assert(r@[b] == before[b - 1]);
                    assert(r@[a] == before[a - 1]);
                }
            }
        }
        i += 1;
    }
    r
}

/// Positions of `keys` in ascending (or, with `desc`, descending) text
/// order; equal keys keep their order.
pub fn order_by_text(keys: &Vec<Vec<char>>, desc: bool) -> (r: Vec<usize>)
    ensures
        text_order(r@, keys.deep_view(), desc),
{
    let ghost kv = keys.deep_view();
    let mut r: Vec<usize> = Vec::new();
    let mut i: usize = 0;
    while i < keys.len()
        invariant
            kv == keys.deep_view(),
            i <= keys.len(),
            r@.len() == i,
            forall|a: int| 0 <= a < r@.len() ==> (#[trigger] r@[a]) < i,
            forall|j: usize| j < i ==> #[trigger] r@.contains(j),
            forall|a: int, b: int|
                0 <= a < b < r@.len() ==> !text_before(kv[#[trigger] r@[b] as int], kv[#[trigger] r@[a] as int], desc),
            forall|a: int, b: int|
                0 <= a < b < r@.len() && kv[#[trigger] r@[a] as int] == kv[#[trigger] r@[b] as int] ==> r@[a] < r@[b],
        decreases keys.len() - i,
    {
        let k = &keys[i];
        proof {
            assert(kv[i as int] =~= k@);
        }
        let mut p: usize = 0;
        while p < r.len() && !text_before_exec(k, &keys[r[p]], desc)
            invariant
                kv == keys.deep_view(),
                p <= r@.len(),
                forall|a: int| 0 <= a < r@.len() ==> (#[trigger] r@[a]) < i,
                i < keys.len(),
                k@ == kv[i as int],
                forall|a: int| 0 <= a < p ==> !text_before(k@, kv[#[trigger] r@[a] as int], desc),
            decreases r@.len() - p,
        {
            proof {
                assert(kv[r@[p as int] as int] =~= keys@[r@[p as int] as int]@);
            }
            p += 1;
        }
        proof {
            if p < r@.len() {
                assert(kv[r@[p as int] as int] =~= keys@[r@[p as int] as int]@);
            }
        }
        let ghost before = r@;
        r.insert(p, i);
        proof {
            before.insert_ensures(p as int, i);
            assert forall|j: usize| j < i + 1 implies #[trigger] r@.contains(j) by {
                if j < i {
                    lemma_insert_contains(before, p as int, i, j);
                } else {
                    lemma_insert_contains(before, p as int, i, i);
                }
            }
            assert forall|a: int| 0 <= a < r@.len() implies (#[trigger] r@[a]) < i + 1 by {
                if a < p {
                } else if a > p {
                    assert(r@[a] == before[a - 1]);
                }
            }
            assert forall|a: int, b: int| 0 <= a < b < r@.len() implies !text_before(
                kv[#[trigger] r@[b] as int],
                kv[#[trigger] r@[a] as int],
                desc,
            ) by {
                if b < p {
                } else if b == p {
                    assert(r@[a] == before[a]);
                } else if a < p {
                    assert(r@[b] == before[b - 1]);
                    assert(r@[a] == before[a]);
                } else if a == p {
                    assert(r@[b] == before[b - 1]);
                    let kp = kv[before[p as int] as int];
                    let kb = kv[before[b - 1] as int];
                    assert(text_before(k@, kp, desc));
                    if b - 1 > p {
                        assert(!text_before(kb, kp, desc));
                    }
                    if text_before(kb, k@, desc) {
                        if desc {
                            lemma_seq_lt_trans(kp, k@, kb);
                        } else {
                            lemma_seq_lt_trans(kb, k@, kp);
                        }
                        lemma_seq_lt_irrefl(kp);
                    }
                } else {
                    assert(r@[b] == before[b - 1]);
                    assert(r@[a] == before[a - 1]);
                }
            }
            assert forall|a: int, b: int|
                0 <= a < b < r@.len() && kv[#[trigger] r@[a] as int] == kv[#[trigger] r@[b] as int] implies r@[a] < r@[b] by {
                if b < p {
                } else if b == p {
                    assert(r@[a] == before[a]);
                } else if a < p {
                    assert(r@[b] == before[b - 1]);
                    assert(r@[a] == before[a]);
                } else if a == p {
                    assert(r@[b] == before[b - 1]);
                    let kp = kv[before[p as int] as int];
                    let kb = kv[before[b - 1] as int];
                    assert(text_before(k@, kp, desc));
                    if b - 1 > p {
                        assert(!text_before(kb, kp, desc));
                        if desc {
                            lemma_seq_lt_trans(kp, k@, kb);
                        } else {
                            lemma_seq_lt_trans(kb, k@, kp);
                        }
                    } else {
                        lemma_seq_lt_irrefl(k@);
                    }
                } else {
                    assert(r@[b] == before[b - 1]);
                    assert(r@[a] == before[a - 1]);
                }
            }
        }
        i += 1;
    }
    r
}


/// `x` sorts before `y`: newer first by its first text, then by its
/// second text, ascending.
pub open spec fn pair_before(x: (Seq<char>, Seq<char>), y: (Seq<char>, Seq<char>)) -> bool {
    seq_lt(y.0, x.0) || (x.0 == y.0 && seq_lt(x.1, y.1))
}

pub open spec fn pair_order(r: Seq<usize>, keys: Seq<(Seq<char>, Seq<char>)>) -> bool {
    &&& is_order(r, keys.len())
    &&& forall|a: int, b: int|
        0 <= a < b < r.len() ==> !pair_before(keys[#[trigger] r[b] as int], keys[#[trigger] r[a] as int])
    &&& forall|a: int, b: int|
        0 <= a < b < r.len() && keys[#[trigger] r[a] as int] == keys[#[trigger] r[b] as int] ==> r[a] < r[b]
}

proof fn lemma_pair_trans(x: (Seq<char>, Seq<char>), y: (Seq<char>, Seq<char>), z: (Seq<char>, Seq<char>))
    requires
        pair_before(x, y),
        pair_before(y, z),
    ensures
        pair_before(x, z),
{
    if seq_lt(y.0, x.0) && seq_lt(z.0, y.0) {
        lemma_seq_lt_trans(z.0, y.0, x.0);
    } else if x.0 == y.0 && y.0 == z.0 {
        lemma_seq_lt_trans(x.1, y.1, z.1);
    }
}

proof fn lemma_pair_irrefl(x: (Seq<char>, Seq<char>))
    ensures
        !pair_before(x, x),
{
    lemma_seq_lt_irrefl(x.0);
    lemma_seq_lt_irrefl(x.1);
}

fn pair_before_exec(x: &(Vec<char>, Vec<char>), y: &(Vec<char>, Vec<char>)) -> (r: bool)
    ensures
        r == pair_before((x.0@, x.1@), (y.0@, y.1@)),
{
    chars_lt(&y.0, &x.0) || (crate::text::chars_eq(&x.0, &y.0) && chars_lt(&x.1, &y.1))
}

pub open spec fn pair_keys(keys: Seq<(Vec<char>, Vec<char>)>) -> Seq<(Seq<char>, Seq<char>)> {
    keys.map_values(|k: (Vec<char>, Vec<char>)| (k.0@, k.1@))
}

/// Positions of `keys` ordered by `pair_before`; equal keys keep their
/// order.
pub fn order_by_pair(keys: &Vec<(Vec<char>, Vec<char>)>) -> (r: Vec<usize>)
    ensures
        pair_order(r@, pair_keys(keys@)),
{
    let ghost kv = pair_keys(keys@);
    let mut r: Vec<usize> = Vec::new();
    let mut i: usize = 0;
    while i < keys.len()
        invariant
            kv == pair_keys(keys@),
            i <= keys.len(),
            r@.len() == i,
            forall|a: int| 0 <= a < r@.len() ==> (#[trigger] r@[a]) < i,
            forall|j: usize| j < i ==> #[trigger] r@.contains(j),
            forall|a: int, b: int|
                0 <= a < b < r@.len() ==> !pair_before(kv[#[trigger] r@[b] as int], kv[#[trigger] r@[a] as int]),
            forall|a: int, b: int|
                0 <= a < b < r@.len() && kv[#[trigger] r@[a] as int] == kv[#[trigger] r@[b] as int] ==> r@[a] < r@[b],
        decreases keys.len() - i,
    {
        let k = &keys[i];
        let ghost kk = (k.0@, k.1@);
        proof {
            assert(kv[i as int] == kk);
        }
        let mut p: usize = 0;
        while p < r.len() && !pair_before_exec(k, &keys[r[p]])
            invariant
                kv == pair_keys(keys@),
                p <= r@.len(),
                forall|a: int| 0 <= a < r@.len() ==> (#[trigger] r@[a]) < i,
                i < keys.len(),
                kk == kv[i as int],
                kk == (k.0@, k.1@),
                forall|a: int| 0 <= a < p ==> !pair_before(kk, kv[#[trigger] r@[a] as int]),
            decreases r@.len() - p,
        {
            p += 1;
        }
        let ghost before = r@;
        r.insert(p, i);
        proof {
            before.insert_ensures(p as int, i);
            assert forall|j: usize| j < i + 1 implies #[trigger] r@.contains(j) by {
                if j < i {
                    lemma_insert_contains(before, p as int, i, j);
                } else {
                    lemma_insert_contains(before, p as int, i, i);
                }
            }
            assert forall|a: int| 0 <= a < r@.len() implies (#[trigger] r@[a]) < i + 1 by {
                if a < p {
                } else if a > p {
                    assert(r@[a] == before[a - 1]);
                }
            }
            assert forall|a: int, b: int| 0 <= a < b < r@.len() implies !pair_before(
                kv[#[trigger] r@[b] as int],
                kv[#[trigger] r@[a] as int],
            ) by {
                if b < p {
                } else if b == p {
                    assert(r@[a] == before[a]);
                } else if a < p {
                    assert(r@[b] == before[b - 1]);
                    assert(r@[a] == before[a]);
                } else if a == p {
                    assert(r@[b] == before[b - 1]);
                    let kp = kv[before[p as int] as int];
                    let kb = kv[before[b - 1] as int];
                    assert(pair_before(kk, kp));
                    if b - 1 > p {
                        assert(!pair_before(kb, kp));
                    }
                    if pair_before(kb, kk) {
                        lemma_pair_trans(kb, kk, kp);
                        lemma_pair_irrefl(kp);
                    }
                } else {
                    assert(r@[b] == before[b - 1]);
                    assert(r@[a] == before[a - 1]);
                }
            }
            assert forall|a: int, b: int|
                0 <= a < b < r@.len() && kv[#[trigger] r@[a] as int] == kv[#[trigger] r@[b] as int] implies r@[a] < r@[b] by {
                if b < p {
                } else if b == p {
                    assert(r@[a] == before[a]);
                } else if a < p {
                    assert(r@[b] == before[b - 1]);
                    assert(r@[a] == before[a]);
                } else if a == p {
                    assert(r@[b] == before[b - 1]);
                    let kp = kv[before[p as int] as int];
                    let kb = kv[before[b - 1] as int];
                    assert(pair_before(kk, kp));
                    if b - 1 > p {
                        assert(!pair_before(kb, kp));
                    } else {
                        lemma_pair_irrefl(kk);
                    }
                } else {
                    assert(r@[b] == before[b - 1]);
                    assert(r@[a] == before[a - 1]);
                }
            }
        }
        i += 1;
    }
    r
}


/// `r` lists its elements in increasing order under `lt`.
pub open spec fn increasing(r: Seq<usize>, lt: spec_fn(usize, usize) -> bool) -> bool {
    forall|a: int, b: int| 0 <= a < b < r.len() ==> lt(#[trigger] r[a], #[trigger] r[b])
}

/// `lt` is irreflexive and asymmetric.
pub open spec fn strict(lt: spec_fn(usize, usize) -> bool) -> bool {
    forall|x: usize, y: usize| #[trigger] lt(x, y) ==> !lt(y, x)
}

/// Two sequences increasing under the same strict order, with the same
/// elements, are the same sequence.
pub proof fn lemma_increasing_unique(r1: Seq<usize>, r2: Seq<usize>, lt: spec_fn(usize, usize) -> bool)
    requires
        strict(lt),
        increasing(r1, lt),
        increasing(r2, lt),
        r1.len() == r2.len(),
        forall|x: usize| r1.contains(x) <==> r2.contains(x),
    ensures
        r1 == r2,
    decreases r1.len(),
{
    if r1.len() > 0 {
        let x = r1[0];
        assert(r1.contains(x));
        let p = choose|p: int| 0 <= p < r2.len() && r2[p] == x;
        if p > 0 {
            let y = r2[0];
            assert(lt(r2[0], r2[p]));
            assert(r2.contains(y));
            let q = choose|q: int| 0 <= q < r1.len() && r1[q] == y;
            if q == 0 {
                assert(lt(y, y));
            } else {
                assert(lt(r1[0], r1[q]));
            }
        }
        let t1 = r1.drop_first();
        let t2 = r2.drop_first();
        assert forall|z: usize| t1.contains(z) <==> t2.contains(z) by {
            if t1.contains(z) {
                let a = choose|a: int| 0 <= a < t1.len() && t1[a] == z;
                assert(r1[a + 1] == z);
                assert(lt(r1[0], r1[a + 1]));
                assert(r1.contains(z));
                let b = choose|b: int| 0 <= b < r2.len() && r2[b] == z;
                if b == 0 {
                    assert(lt(z, z));
                }
                assert(t2[b - 1] == z);
            }
            if t2.contains(z) {
                let a = choose|a: int| 0 <= a < t2.len() && t2[a] == z;
                assert(r2[a + 1] == z);
                assert(lt(r2[0], r2[a + 1]));
                assert(r2.contains(z));
                let b = choose|b: int| 0 <= b < r1.len() && r1[b] == z;
                if b == 0 {
                    assert(lt(z, z));
                }
                assert(t1[b - 1] == z);
            }
        }
        assert(increasing(t1, lt)) by {
            assert forall|a: int, b: int| 0 <= a < b < t1.len() implies lt(#[trigger] t1[a], #[trigger] t1[b]) by {
                assert(lt(r1[a + 1], r1[b + 1]));
            }
        }
        assert(increasing(t2, lt)) by {
            assert forall|a: int, b: int| 0 <= a < b < t2.len() implies lt(#[trigger] t2[a], #[trigger] t2[b]) by {
                assert(lt(r2[a + 1], r2[b + 1]));
            }
        }
        lemma_increasing_unique(t1, t2, lt);
        assert(r1 =~= r2) by {
            assert forall|i: int| 0 <= i < r1.len() implies r1[i] == r2[i] by {
                if i > 0 {
                    assert(r1[i] == t1[i - 1]);
                    assert(r2[i] == t2[i - 1]);
                }
            }
        }
    }
}

/// The order a stable numeric sort gives indices: by key, then by index.
pub open spec fn num_lt(keys: Seq<u128>, desc: bool) -> spec_fn(usize, usize) -> bool {
    |x: usize, y: usize|
        num_before(keys[x as int], keys[y as int], desc) || (keys[x as int] == keys[y as int] && x < y)
}

pub open spec fn text_lt(keys: Seq<Seq<char>>, desc: bool) -> spec_fn(usize, usize) -> bool {
    |x: usize, y: usize|
        text_before(keys[x as int], keys[y as int], desc) || (keys[x as int] == keys[y as int] && x < y)
}

/// A stable numeric order is the only one.
pub proof fn lemma_num_order_unique(r1: Seq<usize>, r2: Seq<usize>, keys: Seq<u128>, desc: bool)
    requires
        num_order(r1, keys, desc),
        num_order(r2, keys, desc),
    ensures
        r1 == r2,
{
    let lt = num_lt(keys, desc);
    assert(strict(lt));
    assert(increasing(r1, lt)) by {
        assert forall|a: int, b: int| 0 <= a < b < r1.len() implies lt(#[trigger] r1[a], #[trigger] r1[b]) by {
            assert(!num_before(keys[r1[b] as int], keys[r1[a] as int], desc));
        }
    }
    assert(increasing(r2, lt)) by {
        assert forall|a: int, b: int| 0 <= a < b < r2.len() implies lt(#[trigger] r2[a], #[trigger] r2[b]) by {
            assert(!num_before(keys[r2[b] as int], keys[r2[a] as int], desc));
        }
    }
    assert forall|x: usize| r1.contains(x) <==> r2.contains(x) by {
        if r1.contains(x) {
            let a = choose|a: int| 0 <= a < r1.len() && r1[a] == x;
            assert(x < keys.len());
        }
        if r2.contains(x) {
            let a = choose|a: int| 0 <= a < r2.len() && r2[a] == x;
            assert(x < keys.len());
        }
    }
    lemma_increasing_unique(r1, r2, lt);
}

pub proof fn lemma_text_order_unique(r1: Seq<usize>, r2: Seq<usize>, keys: Seq<Seq<char>>, desc: bool)
    requires
        text_order(r1, keys, desc),
        text_order(r2, keys, desc),
    ensures
        r1 == r2,
{
    let lt = text_lt(keys, desc);
    assert(strict(lt)) by {
        assert forall|x: usize, y: usize| #[trigger] lt(x, y) implies !lt(y, x) by {
            let kx = keys[x as int];
            let ky = keys[y as int];
            if text_before(kx, ky, desc) {
                if desc {
                    lemma_seq_lt_asym(ky, kx);
                    if kx == ky {
                        lemma_seq_lt_irrefl(kx);
                    }
                } else {
                    lemma_seq_lt_asym(kx, ky);
                    if kx == ky {
                        lemma_seq_lt_irrefl(kx);
                    }
                }
            } else {
                lemma_seq_lt_irrefl(kx);
            }
        }
    }
    assert(increasing(r1, lt)) by {
        assert forall|a: int, b: int| 0 <= a < b < r1.len() implies lt(#[trigger] r1[a], #[trigger] r1[b]) by {
            assert(!text_before(keys[r1[b] as int], keys[r1[a] as int], desc));
            lemma_seq_lt_total(keys[r1[a] as int], keys[r1[b] as int]);
        }
    }
    assert(increasing(r2, lt)) by {
        assert forall|a: int, b: int| 0 <= a < b < r2.len() implies lt(#[trigger] r2[a], #[trigger] r2[b]) by {
            assert(!text_before(keys[r2[b] as int], keys[r2[a] as int], desc));
            lemma_seq_lt_total(keys[r2[a] as int], keys[r2[b] as int]);
        }
    }
    lemma_increasing_unique(r1, r2, lt);
}

} // verus!
