//! Memory that has outgrown its use. Every item costs every session a
//! line of the brief, and past the brief's budget an item is not shown at
//! all. `relay compile --hygiene` names what to merge, check, shorten or
//! drop; it changes nothing itself.

use vstd::prelude::*;
use vstd::set_lib::lemma_set_intersect_union_lens;

use crate::brief::item_line;
use crate::limits::{MEMORY_CHARS, OVERLONG_CHARS, SIMILAR_DEN, SIMILAR_NUM};
use crate::memory::{items_view, Item, ItemV};
use crate::strset::{insert_str, sorted_strs};
use crate::text::{alphanumeric, byte_len, chars_of, is_alnum, lowercase, seq_lt, string_of, to_lowercase, utf8_len};

verus! {

/// What to do about one or two items.
#[derive(Debug, Clone, PartialEq, Eq)]
pub enum Advice {
    /// Two items say nearly the same thing: keep one.
    Merge(usize, usize),
    /// Paths it is about changed since it was saved.
    Stale(usize, Vec<String>),
    Expired(usize),
    /// Longer than a line the brief can show.
    Overlong(usize),
    /// Items the brief's budget leaves out, oldest last: shown to nobody.
    Unseen(Vec<usize>),
}

pub enum AdviceV {
    Merge(nat, nat),
    Stale(nat, Seq<Seq<char>>),
    Expired(nat),
    Overlong(nat),
    Unseen(Seq<usize>),
}

impl Advice {
    pub open spec fn view(&self) -> AdviceV {
        match self {
            Advice::Merge(i, j) => AdviceV::Merge(*i as nat, *j as nat),
            Advice::Stale(i, p) => AdviceV::Stale(*i as nat, p.deep_view()),
            Advice::Expired(i) => AdviceV::Expired(*i as nat),
            Advice::Overlong(i) => AdviceV::Overlong(*i as nat),
            Advice::Unseen(v) => AdviceV::Unseen(v@),
        }
    }
}

pub open spec fn advice_view(v: Seq<Advice>) -> Seq<AdviceV> {
    v.map_values(|a: Advice| a.view())
}

// ---------------------------------------------------------------------------
// Words of a title
// ---------------------------------------------------------------------------

/// The runs of letters and digits of `t` and the empty runs between
/// adjacent separators, as `str::split` with a separator test gives them.
pub open spec fn pieces(t: Seq<char>) -> Seq<Seq<char>>
    decreases t.len(),
{
    if t.len() == 0 {
        seq![seq![]]
    } else {
        let rest = pieces(t.drop_last());
        if !is_alnum(t.last()) {
            rest.push(seq![])
        } else {
            rest.update(rest.len() - 1, rest.last().push(t.last()))
        }
    }
}

proof fn lemma_pieces_len(t: Seq<char>)
    ensures
        pieces(t).len() >= 1,
    decreases t.len(),
{
    if t.len() > 0 {
        lemma_pieces_len(t.drop_last());
    }
}

/// The words of a title that count: three characters or more, in lower
/// case, each once.
pub open spec fn word_set(ps: Seq<Seq<char>>) -> Set<Seq<char>>
    decreases ps.len(),
{
    if ps.len() == 0 {
        Set::empty()
    } else {
        let s = word_set(ps.drop_last());
        if ps.last().len() >= 3 {
            s.insert(lowercase(ps.last()))
        } else {
            s
        }
    }
}

pub open spec fn bag(title: Seq<char>) -> Set<Seq<char>> {
    word_set(pieces(title))
}

fn bag_exec(title: &str) -> (r: Vec<String>)
    ensures
        sorted_strs(r.deep_view()),
        r.deep_view().to_set() == bag(title@),
{
    let t = chars_of(title);
    let mut out: Vec<String> = Vec::new();
    let mut cur: Vec<char> = Vec::new();
    let mut i: usize = 0;
    proof {
        assert(t@.take(0) =~= Seq::<char>::empty());
        assert(out.deep_view().to_set() =~= Set::<Seq<char>>::empty());
        assert(pieces(t@.take(0)).drop_last() =~= Seq::<Seq<char>>::empty());
    }
    while i < t.len()
        invariant
            i <= t@.len(),
            sorted_strs(out.deep_view()),
            pieces(t@.take(i as int)).len() >= 1,
            cur@ == pieces(t@.take(i as int)).last(),
            out.deep_view().to_set() == word_set(pieces(t@.take(i as int)).drop_last()),
        decreases t@.len() - i,
    {
        let c = t[i];
        let ghost ps = pieces(t@.take(i as int));
        proof {
            assert(t@.take(i + 1).drop_last() =~= t@.take(i as int));
            assert(t@.take(i + 1).last() == c);
            lemma_pieces_len(t@.take(i + 1));
        }
        if !alphanumeric(c) {
            if cur.len() >= 3 {
                let low = to_lowercase(string_of(&cur).as_str());
                insert_str(&mut out, low.as_str());
            }
            proof {
                let ps2 = pieces(t@.take(i + 1));
                assert(ps2 == ps.push(seq![]));
                assert(ps2.drop_last() =~= ps);
                assert(ps.drop_last().push(ps.last()) =~= ps);
                assert(word_set(ps) == if ps.last().len() >= 3 {
                    word_set(ps.drop_last()).insert(lowercase(ps.last()))
                } else {
                    word_set(ps.drop_last())
                });
            }
            cur = Vec::new();
            proof {
                assert(cur@ =~= Seq::<char>::empty());
            }
        } else {
            cur.push(c);
            proof {
                let ps2 = pieces(t@.take(i + 1));
                assert(ps2 == ps.update(ps.len() - 1, ps.last().push(c)));
                assert(ps2.drop_last() =~= ps.drop_last());
            }
        }
        i += 1;
    }
    proof {
        assert(t@.take(t@.len() as int) =~= t@);
    }
    let ghost ps = pieces(t@);
    if cur.len() >= 3 {
        let low = to_lowercase(string_of(&cur).as_str());
        insert_str(&mut out, low.as_str());
    }
    proof {
        assert(ps.drop_last().push(ps.last()) =~= ps);
        assert(word_set(ps) == if ps.last().len() >= 3 {
            word_set(ps.drop_last()).insert(lowercase(ps.last()))
        } else {
            word_set(ps.drop_last())
        });
    }
    out
}

/// Two titles share at least three fifths of their words (Jaccard).
pub open spec fn similar(a: Set<Seq<char>>, b: Set<Seq<char>>) -> bool {
    a.union(b).len() > 0 && SIMILAR_DEN * a.intersect(b).len() >= SIMILAR_NUM * a.union(b).len()
}

proof fn lemma_sorted_no_dups(s: Seq<Seq<char>>)
    requires
        sorted_strs(s),
    ensures
        s.no_duplicates(),
{
    assert forall|i: int, j: int| 0 <= i < s.len() && 0 <= j < s.len() && i != j implies s[i] != s[j] by {
        if i < j {
            assert(seq_lt(s[i], s[j]));
            if s[i] == s[j] {
                crate::order::lemma_seq_lt_irrefl(s[i]);
            }
        } else {
            assert(seq_lt(s[j], s[i]));
            if s[i] == s[j] {
                crate::order::lemma_seq_lt_irrefl(s[i]);
            }
        }
    }
}

/// How many of `a` lie in `b`.
pub open spec fn shared_count(a: Seq<Seq<char>>, b: Set<Seq<char>>) -> nat
    decreases a.len(),
{
    if a.len() == 0 {
        0
    } else {
        shared_count(a.drop_last(), b) + if b.contains(a.last()) {
            1nat
        } else {
            0nat
        }
    }
}

proof fn lemma_shared_count(a: Seq<Seq<char>>, b: Set<Seq<char>>)
    requires
        a.no_duplicates(),
        b.finite(),
    ensures
        shared_count(a, b) == a.to_set().intersect(b).len(),
    decreases a.len(),
{
    if a.len() == 0 {
        assert(a.to_set().intersect(b) =~= Set::<Seq<char>>::empty());
    } else {
        let d = a.drop_last();
        let x = a.last();
        assert(d.no_duplicates()) by {
            assert forall|i: int, j: int| 0 <= i < d.len() && 0 <= j < d.len() && i != j implies d[i] != d[j] by {
                assert(d[i] == a[i] && d[j] == a[j]);
            }
        }
        lemma_shared_count(d, b);
        assert(!d.to_set().contains(x)) by {
            if d.contains(x) {
                let k = choose|k: int| 0 <= k < d.len() && d[k] == x;
                assert(a[k] == a[a.len() - 1]);
            }
        }
        assert(a.to_set() =~= d.to_set().insert(x)) by {
            assert forall|y: Seq<char>| a.to_set().contains(y) == d.to_set().insert(x).contains(y) by {
                if a.contains(y) {
                    let k = choose|k: int| 0 <= k < a.len() && a[k] == y;
                    if k < d.len() {
                        assert(d[k] == y);
                    }
                }
                if d.contains(y) {
                    let k = choose|k: int| 0 <= k < d.len() && d[k] == y;
                    assert(a[k] == y);
                }
                if y == x {
                    assert(a[a.len() - 1] == y);
                }
            }
        }
        vstd::seq_lib::seq_to_set_is_finite(d);
        let i0 = d.to_set().intersect(b);
        if b.contains(x) {
            assert(a.to_set().intersect(b) =~= i0.insert(x));
            assert(!i0.contains(x));
        } else {
            assert(a.to_set().intersect(b) =~= i0);
        }
    }
}

fn has_word(v: &Vec<String>, w: &str) -> (r: bool)
    ensures
        r == v.deep_view().contains(w@),
{
    crate::strset::has_str(v, w)
}

fn shared_exec(a: &Vec<String>, b: &Vec<String>) -> (r: usize)
    ensures
        r == shared_count(a.deep_view(), b.deep_view().to_set()),
        r <= a@.len(),
{
    let ghost av = a.deep_view();
    let ghost bs = b.deep_view().to_set();
    let mut n: usize = 0;
    let mut i: usize = 0;
    proof {
        assert(av.take(0) =~= Seq::<Seq<char>>::empty());
    }
    while i < a.len()
        invariant
            av == a.deep_view(),
            bs == b.deep_view().to_set(),
            i <= a@.len(),
            n <= i,
            n == shared_count(av.take(i as int), bs),
        decreases a@.len() - i,
    {
        proof {
            assert(av.take(i + 1).drop_last() =~= av.take(i as int));
            assert(av.take(i + 1).last() == a@[i as int]@);
        }
        if has_word(b, a[i].as_str()) {
            n += 1;
        }
        i += 1;
    }
    proof {
        assert(av.take(a@.len() as int) =~= av);
    }
    n
}

fn similar_exec(a: &Vec<String>, b: &Vec<String>) -> (r: bool)
    requires
        sorted_strs(a.deep_view()),
        sorted_strs(b.deep_view()),
    ensures
        r == similar(a.deep_view().to_set(), b.deep_view().to_set()),
{
    let inter = shared_exec(a, b);
    proof {
        let av = a.deep_view();
        let bv = b.deep_view();
        lemma_sorted_no_dups(av);
        lemma_sorted_no_dups(bv);
        vstd::seq_lib::seq_to_set_is_finite(av);
        vstd::seq_lib::seq_to_set_is_finite(bv);
        lemma_shared_count(av, bv.to_set());
        av.unique_seq_to_set();
        bv.unique_seq_to_set();
        lemma_set_intersect_union_lens(av.to_set(), bv.to_set());
        assert(av.to_set() + bv.to_set() == av.to_set().union(bv.to_set()));
        assert(av.len() == a@.len());
        assert(bv.len() == b@.len());
    }
    let union: u128 = (a.len() as u128) + (b.len() as u128) - (inter as u128);
    assert(union <= 2 * (usize::MAX as u128));
    assert(SIMILAR_NUM == 3 && SIMILAR_DEN == 5);
    union > 0 && 5 * (inter as u128) >= 3 * union
}

// ---------------------------------------------------------------------------
// Review
// ---------------------------------------------------------------------------

/// Pairs `(i, j)` for `i < j < k` whose bags are similar, by `j`.
pub open spec fn row(bags: Seq<Set<Seq<char>>>, i: int, k: int) -> Seq<AdviceV>
    decreases k - i,
{
    if k <= i + 1 {
        seq![]
    } else {
        row(bags, i, k - 1) + if similar(bags[i], bags[k - 1]) {
            seq![AdviceV::Merge(i as nat, (k - 1) as nat)]
        } else {
            Seq::<AdviceV>::empty()
        }
    }
}

/// The near duplicates among the first `n` rows.
pub open spec fn merges(bags: Seq<Set<Seq<char>>>, n: int) -> Seq<AdviceV>
    decreases n,
{
    if n <= 0 {
        seq![]
    } else {
        merges(bags, n - 1) + row(bags, n - 1, bags.len() as int)
    }
}

/// What to check or shorten about item `i`.
pub open spec fn item_advice(it: ItemV, i: int, stale: Seq<Seq<Seq<char>>>, expired: Seq<bool>) -> Seq<AdviceV> {
    (if i < expired.len() && expired[i] {
        seq![AdviceV::Expired(i as nat)]
    } else if i < stale.len() && stale[i].len() > 0 {
        seq![AdviceV::Stale(i as nat, stale[i])]
    } else {
        Seq::<AdviceV>::empty()
    }) + if it.title.len() > OVERLONG_CHARS {
        seq![AdviceV::Overlong(i as nat)]
    } else {
        Seq::<AdviceV>::empty()
    }
}

pub open spec fn per_item(items: Seq<ItemV>, stale: Seq<Seq<Seq<char>>>, expired: Seq<bool>, n: int) -> Seq<AdviceV>
    decreases n,
{
    if n <= 0 {
        seq![]
    } else {
        per_item(items, stale, expired, n - 1) + item_advice(items[n - 1], n - 1, stale, expired)
    }
}

/// Bytes of the brief's memory section once the first `n` items are
/// listed.
pub open spec fn used_after(items: Seq<ItemV>, n: int) -> nat
    decreases n,
{
    if n <= 0 {
        14
    } else {
        used_after(items, n - 1) + utf8_len(item_line(items[n - 1]))
    }
}

/// The items past the brief's memory budget, measured as the brief lists
/// them: `- kind: title`.
pub open spec fn unseen_spec(items: Seq<ItemV>, n: int) -> Seq<usize>
    decreases n,
{
    if n <= 0 {
        seq![]
    } else {
        unseen_spec(items, n - 1) + if used_after(items, n) > MEMORY_CHARS {
            seq![(n - 1) as usize]
        } else {
            Seq::<usize>::empty()
        }
    }
}

pub open spec fn review_spec(items: Seq<ItemV>, stale: Seq<Seq<Seq<char>>>, expired: Seq<bool>) -> Seq<AdviceV> {
    let bags = items.map_values(|it: ItemV| bag(it.title));
    let u = unseen_spec(items, items.len() as int);
    merges(bags, items.len() as int) + per_item(items, stale, expired, items.len() as int) + if u.len() > 0 {
        seq![AdviceV::Unseen(u)]
    } else {
        Seq::<AdviceV>::empty()
    }
}

pub open spec fn stale_view(v: Seq<Vec<String>>) -> Seq<Seq<Seq<char>>> {
    v.map_values(|p: Vec<String>| p.deep_view())
}

/// Advice for `items`, in the order the brief lists them; `stale` (the
/// paths of each item that changed) and `expired` (which items expired)
/// as the brief computes them.
pub fn review(items: &[Item], stale: &[Vec<String>], expired: &[bool]) -> (r: Vec<Advice>)
    ensures
        advice_view(r@) == review_spec(items_view(items@), stale_view(stale@), expired@),
{
    let ghost iv = items_view(items@);
    let ghost bags = iv.map_values(|it: ItemV| bag(it.title));
    let mut bv: Vec<Vec<String>> = Vec::new();
    let mut k: usize = 0;
    while k < items.len()
        invariant
            iv == items_view(items@),
            bags == iv.map_values(|it: ItemV| bag(it.title)),
            k <= items@.len(),
            bv@.len() == k,
            forall|j: int| 0 <= j < k ==> sorted_strs((#[trigger] bv@[j]).deep_view()) && bv@[j].deep_view().to_set()
                == bags[j],
        decreases items@.len() - k,
    {
        let b = bag_exec(items[k].title.as_str());
        proof {
            assert(iv[k as int].title == items@[k as int].title@);
        }
        bv.push(b);
        k += 1;
    }
    let n = items.len();
    let mut out: Vec<Advice> = Vec::new();
    let mut i: usize = 0;
    proof {
        assert(advice_view(out@) =~= merges(bags, 0));
    }
    while i < n
        invariant
            n == items@.len(),
            bags.len() == n,
            bv@.len() == n,
            forall|j: int| 0 <= j < n ==> sorted_strs((#[trigger] bv@[j]).deep_view()) && bv@[j].deep_view().to_set()
                == bags[j],
            i <= n,
            advice_view(out@) == merges(bags, i as int),
        decreases n - i,
    {
        let ghost base = advice_view(out@);
        let mut j = i + 1;
        proof {
            assert(base + row(bags, i as int, j as int) =~= base);
        }
        while j < n
            invariant
                n == items@.len(),
                bags.len() == n,
                bv@.len() == n,
                forall|q: int| 0 <= q < n ==> sorted_strs((#[trigger] bv@[q]).deep_view()) && bv@[q].deep_view().to_set()
                    == bags[q],
                i < n,
                i + 1 <= j <= n,
                advice_view(out@) == base + row(bags, i as int, j as int),
            decreases n - j,
        {
            if similar_exec(&bv[i], &bv[j]) {
                let ghost before = advice_view(out@);
                out.push(Advice::Merge(i, j));
                proof {
                    assert(advice_view(out@) =~= before.push(AdviceV::Merge(i as nat, j as nat)));
                }
            } else {
                proof {
                    assert(advice_view(out@) =~= advice_view(out@) + Seq::<AdviceV>::empty());
                }
            }
            j += 1;
        }
        i += 1;
    }
    let ghost merged = advice_view(out@);
    let mut q: usize = 0;
    proof {
        assert(merged + per_item(iv, stale_view(stale@), expired@, 0) =~= merged);
    }
    while q < n
        invariant
            iv == items_view(items@),
            n == items@.len(),
            q <= n,
            advice_view(out@) == merged + per_item(iv, stale_view(stale@), expired@, q as int),
        decreases n - q,
    {
        let ghost before = advice_view(out@);
        let it = &items[q];
        proof {
            assert(iv[q as int] == it.view());
        }
        let exp = q < expired.len() && expired[q];
        if exp {
            out.push(Advice::Expired(q));
        } else if q < stale.len() && stale[q].len() > 0 {
            let paths = crate::strset::copy_strs(&stale[q]);
            out.push(Advice::Stale(q, paths));
            proof {
                assert(stale_view(stale@)[q as int] == stale@[q as int].deep_view());
            }
        }
        let ghost mid = advice_view(out@);
        if chars_of(it.title.as_str()).len() > OVERLONG_CHARS {
            out.push(Advice::Overlong(q));
        }
        proof {
            let sv = stale_view(stale@);
            let first = if q < expired@.len() && expired@[q as int] {
                seq![AdviceV::Expired(q as nat)]
            } else if q < sv.len() && sv[q as int].len() > 0 {
                seq![AdviceV::Stale(q as nat, sv[q as int])]
            } else {
                Seq::<AdviceV>::empty()
            };
            assert(mid =~= before + first);
            assert(advice_view(out@) =~= before + item_advice(iv[q as int], q as int, sv, expired@));
        }
        q += 1;
    }
    let ghost listed = advice_view(out@);
    let mut unseen: Vec<usize> = Vec::new();
    let mut used: u128 = 14;
    let mut over = false;
    let mut m: usize = 0;
    proof {
        assert(unseen@ =~= unseen_spec(iv, 0));
    }
    while m < n
        invariant
            iv == items_view(items@),
            n == items@.len(),
            m <= n,
            !over ==> used == used_after(iv, m as int) && used <= MEMORY_CHARS,
            over ==> used_after(iv, m as int) > MEMORY_CHARS,
            unseen@ == unseen_spec(iv, m as int),
        decreases n - m,
    {
        let it = &items[m];
        proof {
            assert(iv[m as int] == it.view());
        }
        if over {
            proof {
                assert(used_after(iv, m + 1) >= used_after(iv, m as int));
            }
            unseen.push(m);
        } else {
            let mut line = chars_of("- ");
            crate::fmt::push_text(&mut line, it.kind.as_str());
            crate::fmt::push_text(&mut line, ": ");
            crate::fmt::push_text(&mut line, it.title.as_str());
            crate::fmt::push_text(&mut line, "\n");
            proof {
                assert(line@ == item_line(it.view()));
                crate::text::lemma_utf8_len_bounds(line@);
                assert(line@.len() == line.len());
            }
            let lb = byte_len(&line);
            used = used + lb;
            if used > MEMORY_CHARS as u128 {
                over = true;
                unseen.push(m);
            }
        }
        m += 1;
    }
    if unseen.len() > 0 {
        out.push(Advice::Unseen(unseen));
    }
    out
}

} // verus!
