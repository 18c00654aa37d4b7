//! Compression benchmark. Replays originals through the current filters
//! and reports, per filter, what was saved and what signal survived.
//!
//! Sources: the local output store (this worktree's real history), a
//! corpus directory of `<name>.cmd` + `<name>.out` fixtures with an
//! optional `<name>.keep` listing lines that must survive verbatim, and
//! shell calls read from a harness's own transcripts. The caller replays
//! and measures each sample; how samples add up, and which lines a
//! `.keep` file asks for, is decided here.

use vstd::prelude::*;

use crate::order::{num_order, order_by_num};
use crate::strset::{sorted_set, sorted_strs};
use crate::text::{chars_of, has_prefix, lines, lines_of, str_eq, string_of, trim, trim_spec};

verus! {

/// One shell command an agent ran and the output it saw.
pub struct ShellCall {
    pub cmd: String,
    pub output: String,
}

#[derive(Debug, Clone)]
pub struct Sample {
    pub name: String,
    pub cmd: String,
    pub family: String,
    pub filter: String,
    /// Whether the hook policy routes this command through `relay x`.
    /// Unwrapped calls reach the agent uncompressed.
    pub wrapped: bool,
    pub tokens_in: usize,
    pub tokens_out: usize,
    pub signal_kept: usize,
    pub signal_total: usize,
    pub expect_kept: usize,
    pub expect_total: usize,
    pub missing: Vec<String>,
    pub refetched: bool,
}

#[derive(Debug, Default, Clone)]
pub struct Totals {
    pub key: String,
    pub samples: usize,
    pub wrapped: usize,
    pub tokens_in: usize,
    /// As if every call went through `relay x`.
    pub tokens_out: usize,
    /// With the current hook policy: unwrapped calls cost `tokens_in`.
    pub tokens_out_effective: usize,
    pub signal_kept: usize,
    pub signal_total: usize,
    pub expect_kept: usize,
    pub expect_total: usize,
    pub refetched: usize,
}

/// The counts of a group of samples.
pub struct TotalsV {
    pub key: Seq<char>,
    pub samples: nat,
    pub wrapped: nat,
    pub tokens_in: nat,
    pub tokens_out: nat,
    pub tokens_out_effective: nat,
    pub signal_kept: nat,
    pub signal_total: nat,
    pub expect_kept: nat,
    pub expect_total: nat,
    pub refetched: nat,
}

impl Totals {
    pub open spec fn view(&self) -> TotalsV {
        TotalsV {
            key: self.key@,
            samples: self.samples as nat,
            wrapped: self.wrapped as nat,
            tokens_in: self.tokens_in as nat,
            tokens_out: self.tokens_out as nat,
            tokens_out_effective: self.tokens_out_effective as nat,
            signal_kept: self.signal_kept as nat,
            signal_total: self.signal_total as nat,
            expect_kept: self.expect_kept as nat,
            expect_total: self.expect_total as nat,
            refetched: self.refetched as nat,
        }
    }
}

pub open spec fn totals_view(v: Seq<Totals>) -> Seq<TotalsV> {
    v.map_values(|t: Totals| t.view())
}

pub open spec fn zero(key: Seq<char>) -> TotalsV {
    TotalsV {
        key,
        samples: 0,
        wrapped: 0,
        tokens_in: 0,
        tokens_out: 0,
        tokens_out_effective: 0,
        signal_kept: 0,
        signal_total: 0,
        expect_kept: 0,
        expect_total: 0,
        refetched: 0,
    }
}

pub open spec fn b(x: bool) -> nat {
    if x {
        1
    } else {
        0
    }
}

/// `t` with one more sample.
pub open spec fn added(t: TotalsV, s: Sample) -> TotalsV {
    TotalsV {
        key: t.key,
        samples: t.samples + 1,
        wrapped: t.wrapped + b(s.wrapped),
        tokens_in: t.tokens_in + s.tokens_in as nat,
        tokens_out: t.tokens_out + s.tokens_out as nat,
        tokens_out_effective: t.tokens_out_effective + if s.wrapped {
            s.tokens_out as nat
        } else {
            s.tokens_in as nat
        },
        signal_kept: t.signal_kept + s.signal_kept as nat,
        signal_total: t.signal_total + s.signal_total as nat,
        expect_kept: t.expect_kept + s.expect_kept as nat,
        expect_total: t.expect_total + s.expect_total as nat,
        refetched: t.refetched + b(s.refetched),
    }
}

/// What samples are grouped by.
#[derive(Debug, Clone, Copy, PartialEq, Eq, Structural)]
pub enum GroupBy {
    Filter,
    Family,
}

pub open spec fn group_of(s: Sample, by: GroupBy) -> Seq<char> {
    match by {
        GroupBy::Filter => s.filter@,
        GroupBy::Family => s.family@,
    }
}

/// The first `n` samples in group `k` (all of them for `None`), added up
/// under the label `label`.
pub open spec fn sum(ss: Seq<Sample>, k: Option<Seq<char>>, by: GroupBy, label: Seq<char>, n: int) -> TotalsV
    decreases n,
{
    if n <= 0 {
        zero(label)
    } else {
        let prev = sum(ss, k, by, label, n - 1);
        match k {
            Some(g) => if group_of(ss[n - 1], by) == g {
                added(prev, ss[n - 1])
            } else {
                prev
            },
            None => added(prev, ss[n - 1]),
        }
    }
}

pub open spec fn total_spec(ss: Seq<Sample>, k: Option<Seq<char>>, by: GroupBy, label: Seq<char>) -> TotalsV {
    sum(ss, k, by, label, ss.len() as int)
}

/// Every count fits a `usize`.
pub open spec fn fits_counts(t: TotalsV) -> bool {
    &&& t.samples <= usize::MAX
    &&& t.wrapped <= usize::MAX
    &&& t.tokens_in <= usize::MAX
    &&& t.tokens_out <= usize::MAX
    &&& t.tokens_out_effective <= usize::MAX
    &&& t.signal_kept <= usize::MAX
    &&& t.signal_total <= usize::MAX
    &&& t.expect_kept <= usize::MAX
    &&& t.expect_total <= usize::MAX
    &&& t.refetched <= usize::MAX
}

/// Every count of every group fits: the grand total's do.
pub open spec fn fits(ss: Seq<Sample>, by: GroupBy) -> bool {
    fits_counts(total_spec(ss, None, by, "total"@))
}

pub open spec fn le(a: TotalsV, c: TotalsV) -> bool {
    &&& a.samples <= c.samples
    &&& a.wrapped <= c.wrapped
    &&& a.tokens_in <= c.tokens_in
    &&& a.tokens_out <= c.tokens_out
    &&& a.tokens_out_effective <= c.tokens_out_effective
    &&& a.signal_kept <= c.signal_kept
    &&& a.signal_total <= c.signal_total
    &&& a.expect_kept <= c.expect_kept
    &&& a.expect_total <= c.expect_total
    &&& a.refetched <= c.refetched
}

/// A group's counts, and a prefix's, never pass the grand total.
proof fn lemma_sum_le(ss: Seq<Sample>, k: Option<Seq<char>>, by: GroupBy, l1: Seq<char>, l2: Seq<char>, n: int, m: int)
    requires
        0 <= n <= m <= ss.len(),
    ensures
        le(sum(ss, k, by, l1, n), sum(ss, None, by, l2, m)),
    decreases m,
{
    if m > n {
        lemma_sum_le(ss, k, by, l1, l2, n, m - 1);
    } else if n > 0 {
        lemma_sum_le(ss, k, by, l1, l2, n - 1, m - 1);
    }
}

impl Totals {
    fn zero(key: String) -> (t: Totals)
        ensures
            t.view() == zero(key@),
    {
        Totals {
            key,
            samples: 0,
            wrapped: 0,
            tokens_in: 0,
            tokens_out: 0,
            tokens_out_effective: 0,
            signal_kept: 0,
            signal_total: 0,
            expect_kept: 0,
            expect_total: 0,
            refetched: 0,
        }
    }

    /// Counts `s` in.
    pub fn add(&mut self, s: &Sample)
        requires
            fits_counts(added(old(self).view(), *s)),
        ensures
            final(self).view() == added(old(self).view(), *s),
    {
        self.samples = self.samples + 1;
        self.wrapped = self.wrapped + if s.wrapped {
            1
        } else {
            0
        };
        self.tokens_in = self.tokens_in + s.tokens_in;
        self.tokens_out = self.tokens_out + s.tokens_out;
        self.tokens_out_effective = self.tokens_out_effective + if s.wrapped {
            s.tokens_out
        } else {
            s.tokens_in
        };
        self.signal_kept = self.signal_kept + s.signal_kept;
        self.signal_total = self.signal_total + s.signal_total;
        self.expect_kept = self.expect_kept + s.expect_kept;
        self.expect_total = self.expect_total + s.expect_total;
        self.refetched = self.refetched + if s.refetched {
            1
        } else {
            0
        };
    }
}

fn group_exec(s: &Sample, by: GroupBy) -> (r: &String)
    ensures
        r@ == group_of(*s, by),
{
    match by {
        GroupBy::Filter => &s.filter,
        GroupBy::Family => &s.family,
    }
}

/// The samples of group `k` (all for `None`) added up under `label`.
fn sum_exec(ss: &[Sample], k: Option<&str>, by: GroupBy, label: String) -> (t: Totals)
    requires
        fits(ss@, by),
    ensures
        t.view() == total_spec(
            ss@,
            match k {
                Some(g) => Some(g@),
                None => None,
            },
            by,
            label@,
        ),
{
    let ghost kk = match k {
        Some(g) => Some(g@),
        None => None,
    };
    let ghost lab = label@;
    let mut t = Totals::zero(label);
    let mut i: usize = 0;
    while i < ss.len()
        invariant
            i <= ss@.len(),
            fits(ss@, by),
            t.view() == sum(ss@, kk, by, lab, i as int),
            kk == match k {
                Some(g) => Some(g@),
                None => None::<Seq<char>>,
            },
        decreases ss@.len() - i,
    {
        let take = match k {
            Some(g) => str_eq(group_exec(&ss[i], by).as_str(), g),
            None => true,
        };
        if take {
            proof {
                lemma_sum_le(ss@, kk, by, lab, "total"@, i + 1, ss@.len() as int);
            }
            t.add(&ss[i]);
        }
        i += 1;
    }
    t
}

/// Each group's totals, in the order of `names`.
pub open spec fn group_totals(ss: Seq<Sample>, by: GroupBy, names: Seq<Seq<char>>) -> Seq<TotalsV> {
    names.map_values(|g: Seq<char>| total_spec(ss, Some(g), by, g))
}

pub open spec fn group_tokens(ss: Seq<Sample>, by: GroupBy, names: Seq<Seq<char>>) -> Seq<u128> {
    names.map_values(|g: Seq<char>| total_spec(ss, Some(g), by, g).tokens_in as u128)
}

/// Totals grouped by filter or family, largest input first (ties in the
/// order of their names), plus the overall total.
pub fn totals(samples: &[Sample], by: GroupBy) -> (r: (Vec<Totals>, Totals))
    requires
        fits(samples@, by),
    ensures
        r.1.view() == total_spec(samples@, None, by, "total"@),
        exists|names: Seq<Seq<char>>, o: Seq<usize>|
            {
                &&& sorted_strs(names)
                &&& names.to_set() == samples@.map_values(|s: Sample| group_of(s, by)).to_set()
                &&& #[trigger] num_order(o, group_tokens(samples@, by, names), true)
                &&& totals_view(r.0@) == o.map_values(|i: usize| group_totals(samples@, by, names)[i as int])
            },
{
    let mut keys: Vec<String> = Vec::new();
    let mut i: usize = 0;
    while i < samples.len()
        invariant
            i <= samples@.len(),
            keys.deep_view() =~= samples@.take(i as int).map_values(|s: Sample| group_of(s, by)),
        decreases samples@.len() - i,
    {
        keys.push(group_exec(&samples[i], by).clone());
        proof {
            assert(samples@.take(i + 1).map_values(|s: Sample| group_of(s, by)) =~= samples@.take(
                i as int,
            ).map_values(|s: Sample| group_of(s, by)).push(group_of(samples@[i as int], by)));
        }
        i += 1;
    }
    proof {
        assert(samples@.take(samples@.len() as int) =~= samples@);
    }
    let names = sorted_set(&keys);
    let ghost nv = names.deep_view();
    let mut rows: Vec<Totals> = Vec::new();
    let mut ins: Vec<u128> = Vec::new();
    let mut j: usize = 0;
    while j < names.len()
        invariant
            nv == names.deep_view(),
            j <= names@.len(),
            fits(samples@, by),
            totals_view(rows@) =~= nv.take(j as int).map_values(
                |g: Seq<char>| total_spec(samples@, Some(g), by, g),
            ),
            ins@ =~= nv.take(j as int).map_values(
                |g: Seq<char>| total_spec(samples@, Some(g), by, g).tokens_in as u128,
            ),
        decreases names@.len() - j,
    {
        let g = &names[j];
        proof {
            assert(nv[j as int] == g@);
        }
        let label = g.clone();
        proof {
            assert(label@ == g@);
        }
        let t = sum_exec(samples, Some(g.as_str()), by, label);
        ins.push(t.tokens_in as u128);
        let ghost before = totals_view(rows@);
        rows.push(t);
        proof {
            assert(totals_view(rows@) =~= before.push(t.view()));
            assert(nv.take(j + 1) =~= nv.take(j as int).push(g@));
        }
        j += 1;
    }
    proof {
        assert(nv.take(names@.len() as int) =~= nv);
    }
    let o = order_by_num(&ins, true);
    let ghost want = o@.map_values(|k: usize| total_spec(samples@, Some(nv[k as int]), by, nv[k as int]));
    let mut out: Vec<Totals> = Vec::new();
    let mut m: usize = 0;
    while m < o.len()
        invariant
            num_order(o@, ins@, true),
            ins@.len() == nv.len(),
            rows@.len() == nv.len(),
            totals_view(rows@) =~= nv.map_values(|g: Seq<char>| total_spec(samples@, Some(g), by, g)),
            want == o@.map_values(|k: usize| total_spec(samples@, Some(nv[k as int]), by, nv[k as int])),
            m <= o@.len(),
            totals_view(out@) =~= want.take(m as int),
        decreases o@.len() - m,
    {
        let k = o[m];
        proof {
            assert(o@[m as int] < ins@.len());
        }
        let row = rows[k].clone_totals();
        out.push(row);
        proof {
            assert(totals_view(rows@)[k as int] == rows@[k as int].view());
            assert(want.take(m + 1) =~= want.take(m as int).push(want[m as int]));
        }
        m += 1;
    }
    proof {
        assert(want.take(o@.len() as int) =~= want);
        assert(ins@ =~= group_tokens(samples@, by, nv));
        assert(want =~= o@.map_values(|i: usize| group_totals(samples@, by, nv)[i as int]));
    }
    let all = sum_exec(samples, None, by, string_of(&chars_of("total")));
    proof {
        reveal_strlit("total");
    }
    (out, all)
}

impl Totals {
    pub fn clone_totals(&self) -> (t: Totals)
        ensures
            t.view() == self.view(),
    {
        Totals {
            key: self.key.clone(),
            samples: self.samples,
            wrapped: self.wrapped,
            tokens_in: self.tokens_in,
            tokens_out: self.tokens_out,
            tokens_out_effective: self.tokens_out_effective,
            signal_kept: self.signal_kept,
            signal_total: self.signal_total,
            expect_kept: self.expect_kept,
            expect_total: self.expect_total,
            refetched: self.refetched,
        }
    }
}

/// The lines a `.keep` file asks to survive: trimmed, neither empty nor a
/// `#` comment.
pub open spec fn expected_spec(text: Seq<char>) -> Seq<Seq<char>> {
    lines_of(text).map_values(|l: Seq<char>| trim_spec(l)).filter(|l: Seq<char>| l.len() > 0 && !has_prefix(l, "#"@))
}

pub fn expected_lines(text: &str) -> (r: Vec<String>)
    ensures
        r.deep_view() == expected_spec(text@),
{
    let ls = lines(&chars_of(text));
    let ghost tv = ls.deep_view().map_values(|l: Seq<char>| trim_spec(l));
    let mut out: Vec<String> = Vec::new();
    let mut i: usize = 0;
    proof {
        assert(tv.take(0).filter(|l: Seq<char>| l.len() > 0 && !has_prefix(l, "#"@)) =~= Seq::<Seq<char>>::empty());
        assert(out.deep_view() =~= Seq::<Seq<char>>::empty());
    }
    while i < ls.len()
        invariant
            tv == ls.deep_view().map_values(|l: Seq<char>| trim_spec(l)),
            i <= ls@.len(),
            out.deep_view() == tv.take(i as int).filter(|l: Seq<char>| l.len() > 0 && !has_prefix(l, "#"@)),
        decreases ls@.len() - i,
    {
        let t = trim(&ls[i]);
        proof {
            assert(ls.deep_view()[i as int] == ls@[i as int]@);
            assert(tv[i as int] == t@);
            crate::seqs::lemma_filter_step(tv, |l: Seq<char>| l.len() > 0 && !has_prefix(l, "#"@), i as int);
        }
        let hash = chars_of("#");
        if t.len() > 0 && !crate::text::starts_with(&t, &hash) {
            let ghost before = out.deep_view();
            out.push(string_of(&t));
            proof {
                assert(out.deep_view() =~= before.push(t@));
            }
        }
        i += 1;
    }
    proof {
        assert(tv.take(ls@.len() as int) =~= tv);
    }
    out
}

} // verus!
