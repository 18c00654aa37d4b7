//! Live path claims: which session in this worktree is editing which
//! files, so parallel sessions in one checkout see each other before they
//! collide. A line in the brief and a warning before the edit are cheaper
//! than the rebases that follow otherwise.
//!
//! A claim is live while its session edited within `CLAIM_LIVE_SECS` and
//! has not ended. Times are ISO-8601 UTC texts, which order as the times
//! they name.

use vstd::prelude::*;

use crate::fmt::{dec, push_all, push_dec, push_text};
use crate::limits::{CLAIM_AREAS_SHOWN, CLAIM_BRIEF_CHARS, CLAIM_DIRTY_SHOWN, CLAIM_LABEL_CHARS, CLAIM_LIVE_SECS};
use crate::spool::Event;
use crate::order::{num_order, order_by_num, order_by_text, text_order};
use crate::text::{
    byte_len, byte_prefix, byte_prefix_exec, chars_eq, chars_of, cuts_at, join, join_spec, seq_lt,
    split_char, split_on, str_eq, str_lt, string_of, utf8_len,
};
use crate::time::{ago, ago_spec, iso, iso_spec, parse_iso, parse_iso_spec};

verus! {

pub struct Claim {
    pub session: String,
    pub harness: String,
    /// The session's first ask, so a person recognises it.
    pub label: String,
    /// When the session last edited a file here.
    pub updated: String,
    pub ended: bool,
    /// Repo-relative path, and when this session last edited it; in path
    /// order, each path once.
    pub files: Vec<(String, String)>,
    /// Paths this session was already warned about, so it hears it once.
    pub warned: Vec<String>,
}

#[verifier::ext_equal]
pub struct ClaimV {
    pub session: Seq<char>,
    pub harness: Seq<char>,
    pub label: Seq<char>,
    pub updated: Seq<char>,
    pub ended: bool,
    pub files: Seq<(Seq<char>, Seq<char>)>,
    pub warned: Seq<Seq<char>>,
}

pub open spec fn pairs_view(v: Seq<(String, String)>) -> Seq<(Seq<char>, Seq<char>)> {
    v.map_values(|p: (String, String)| (p.0@, p.1@))
}

impl Claim {
    pub open spec fn view(&self) -> ClaimV {
        ClaimV {
            session: self.session@,
            harness: self.harness@,
            label: self.label@,
            updated: self.updated@,
            ended: self.ended,
            files: pairs_view(self.files@),
            warned: self.warned.deep_view(),
        }
    }
}

impl Default for Claim {
    fn default() -> (c: Claim)
        ensures
            c.session@.len() == 0 && c.harness@.len() == 0 && c.label@.len() == 0,
            c.updated@.len() == 0 && !c.ended && c.files@.len() == 0 && c.warned@.len() == 0,
    {
        Claim {
            session: String::new(),
            harness: String::new(),
            label: String::new(),
            updated: String::new(),
            ended: false,
            files: Vec::new(),
            warned: Vec::new(),
        }
    }
}

pub open spec fn sat_sub(a: nat, b: nat) -> nat {
    if a >= b {
        (a - b) as nat
    } else {
        0
    }
}

/// Not ended, and edited within the live window before `now`.
pub open spec fn live(c: ClaimV, now: nat) -> bool {
    !c.ended && !seq_lt(c.updated, iso_spec(sat_sub(now, CLAIM_LIVE_SECS as nat)))
}

/// `1a2b3c4d (harness, "the ask")`: the first eight bytes of the session
/// id and what is known of it.
pub open spec fn name_spec(c: ClaimV) -> Seq<char> {
    let about = (if c.harness.len() > 0 {
        seq![c.harness]
    } else {
        seq![]
    }) + (if c.label.len() > 0 {
        seq!["\""@ + c.label + "\""@]
    } else {
        seq![]
    });
    byte_prefix(c.session, 8) + if about.len() > 0 {
        " ("@ + join_spec(about, ", "@) + ")"@
    } else {
        seq![]
    }
}

impl Claim {
    pub fn is_live(&self, now: u64) -> (r: bool)
        ensures
            r == live(self.view(), now as nat),
    {
        let from = if now >= CLAIM_LIVE_SECS {
            now - CLAIM_LIVE_SECS
        } else {
            0
        };
        let cut = iso(from);
        !self.ended && !str_lt(self.updated.as_str(), cut.as_str())
    }

    pub fn name(&self) -> (r: String)
        requires
            cuts_at(self.session@, 8),
        ensures
            r@ == name_spec(self.view()),
    {
        let sc = chars_of(self.session.as_str());
        let mut s = byte_prefix_exec(&sc, 8);
        let mut about: Vec<Vec<char>> = Vec::new();
        if !self.harness.as_str().is_empty() {
            let h = chars_of(self.harness.as_str());
            proof {
                assert(h.deep_view() =~= h@);
            }
            about.push(h);
        }
        let ghost a1 = about.deep_view();
        if !self.label.as_str().is_empty() {
            let mut l = chars_of("\"");
            push_text(&mut l, self.label.as_str());
            push_text(&mut l, "\"");
            proof {
                assert(l.deep_view() =~= l@);
            }
            about.push(l);
        }
        proof {
            let ghost h_part = if self.harness@.len() > 0 {
                seq![self.harness@]
            } else {
                seq![]
            };
            assert(a1 =~= h_part);
            assert(about.deep_view() =~= h_part + (if self.label@.len() > 0 {
                seq!["\""@ + self.label@ + "\""@]
            } else {
                seq![]
            }));
        }
        if about.len() > 0 {
            push_text(&mut s, " (");
            let sep = chars_of(", ");
            let j = join(&about, &sep);
            push_all(&mut s, &j);
            push_text(&mut s, ")");
        }
        string_of(&s)
    }

    pub fn copy(&self) -> (c: Claim)
        ensures
            c.view() == self.view(),
    {
        Claim {
            session: self.session.clone(),
            harness: self.harness.clone(),
            label: self.label.clone(),
            updated: self.updated.clone(),
            ended: self.ended,
            files: copy_pairs(&self.files),
            warned: crate::strset::copy_strs(&self.warned),
        }
    }
}

fn copy_pairs(v: &Vec<(String, String)>) -> (r: Vec<(String, String)>)
    ensures
        pairs_view(r@) == pairs_view(v@),
{
    let mut r: Vec<(String, String)> = Vec::new();
    let mut i: usize = 0;
    while i < v.len()
        invariant
            i <= v@.len(),
            pairs_view(r@) =~= pairs_view(v@).take(i as int),
        decreases v@.len() - i,
    {
        r.push((v[i].0.clone(), v[i].1.clone()));
        proof {
            assert(pairs_view(v@).take(i + 1) =~= pairs_view(v@).take(i as int).push((v@[i as int].0@, v@[i as int].1@)));
        }
        i += 1;
    }
    proof {
        assert(pairs_view(v@).take(v@.len() as int) =~= pairs_view(v@));
    }
    r
}

// ---------------------------------------------------------------------------
// Paths by claim
// ---------------------------------------------------------------------------

/// The time recorded for `key`: its first entry.
pub open spec fn lookup(files: Seq<(Seq<char>, Seq<char>)>, key: Seq<char>) -> Option<Seq<char>> {
    if exists|k: int| 0 <= k < files.len() && files[k].0 == key {
        let k = choose|k: int| 0 <= k < files.len() && files[k].0 == key && forall|j: int| 0 <= j < k ==> files[j].0 != key;
        Some(files[k].1)
    } else {
        None
    }
}

fn lookup_exec(files: &Vec<(String, String)>, key: &str) -> (r: Option<String>)
    ensures
        match r {
            Some(t) => lookup(pairs_view(files@), key@) == Some(t@),
            None => lookup(pairs_view(files@), key@) is None,
        },
{
    let ghost fv = pairs_view(files@);
    let mut i: usize = 0;
    while i < files.len()
        invariant
            fv == pairs_view(files@),
            i <= files@.len(),
            forall|j: int| 0 <= j < i ==> fv[j].0 != key@,
        decreases files@.len() - i,
    {
        if str_eq(files[i].0.as_str(), key) {
            proof {
                assert(fv[i as int].0 == key@);
                let k = choose|k: int| 0 <= k < fv.len() && fv[k].0 == key@ && forall|j: int| 0 <= j < k ==> fv[j].0 != key@;
                if k != i {
                    if k < i {
                        assert(fv[k].0 != key@);
                    } else {
                        assert(fv[i as int].0 != key@);
                    }
                }
            }
            return Some(files[i].1.clone());
        }
        i += 1;
    }
    None
}

/// Paths in strictly ascending order.
pub open spec fn sorted_keys(files: Seq<(Seq<char>, Seq<char>)>) -> bool {
    forall|i: int, j: int| 0 <= i < j < files.len() ==> seq_lt(#[trigger] files[i].0, #[trigger] files[j].0)
}

// ---------------------------------------------------------------------------
// New claims and the claims kept
// ---------------------------------------------------------------------------

/// The `key` of the first `event` among `evs`, or nothing.
pub open spec fn first_field(evs: Seq<Event>, event: Seq<char>, key: Seq<char>) -> Seq<char>
    decreases evs.len(),
{
    if evs.len() == 0 {
        seq![]
    } else if evs[0].event@ == event {
        match evs[0].data.at(key).str_of() {
            Some(s) => s,
            None => seq![],
        }
    } else {
        first_field(evs.drop_first(), event, key)
    }
}

fn first_field_exec(evs: &[Event], event: &str, key: &str) -> (r: String)
    ensures
        r@ == first_field(evs@, event@, key@),
{
    let mut i: usize = 0;
    proof {
        assert(evs@.skip(0) =~= evs@);
    }
    while i < evs.len()
        invariant
            i <= evs@.len(),
            first_field(evs@.skip(i as int), event@, key@) == first_field(evs@, event@, key@),
        decreases evs@.len() - i,
    {
        proof {
            assert(evs@.skip(i as int)[0] == evs@[i as int]);
            assert(evs@.skip(i as int).drop_first() =~= evs@.skip(i + 1));
        }
        if str_eq(evs[i].event.as_str(), event) {
            return match evs[i].data.str_at(key) {
                Some(s) => string_of(&chars_of(s)),
                None => String::new(),
            };
        }
        i += 1;
    }
    proof {
        assert(evs@.skip(i as int) =~= Seq::<Event>::empty());
    }
    String::new()
}

/// A new claim for `session`, named from its spool events: the harness
/// and the first thing it was asked, on one line and cut to
/// `CLAIM_LABEL_CHARS`.
pub open spec fn fresh_spec(session: Seq<char>, evs: Seq<Event>, now: Seq<char>) -> ClaimV {
    ClaimV {
        session,
        harness: first_field(evs, "session_start"@, "harness"@),
        label: crate::fmt::truncate_spec(
            join_spec(crate::text::words_of(first_field(evs, "prompt"@, "text"@)), seq![' ']),
            CLAIM_LABEL_CHARS as nat,
        ),
        updated: now,
        ended: false,
        files: seq![],
        warned: seq![],
    }
}

pub fn fresh(session: &str, events: &[Event], now: &str) -> (c: Claim)
    ensures
        c.view() == fresh_spec(session@, events@, now@),
{
    let harness = first_field_exec(events, "session_start", "harness");
    let ask = first_field_exec(events, "prompt", "text");
    let one_line = crate::text::squash_ws(&chars_of(ask.as_str()));
    let label = crate::fmt::truncate_chars(&one_line, CLAIM_LABEL_CHARS);
    let c = Claim {
        session: string_of(&chars_of(session)),
        harness,
        label: string_of(&label),
        updated: string_of(&chars_of(now)),
        ended: false,
        files: Vec::new(),
        warned: Vec::new(),
    };
    proof {
        assert(c.view().files =~= Seq::<(Seq<char>, Seq<char>)>::empty());
        assert(c.view().warned =~= Seq::<Seq<char>>::empty());
    }
    c
}

/// Claims still kept at `cutoff` (last edit at or after it), newest
/// first; ties keep their order.
pub open spec fn kept_spec(cs: Seq<ClaimV>, cutoff: Seq<char>) -> Seq<ClaimV> {
    cs.filter(still_kept(cutoff))
}

pub open spec fn still_kept(cutoff: Seq<char>) -> spec_fn(ClaimV) -> bool {
    |c: ClaimV| !seq_lt(c.updated, cutoff)
}

pub open spec fn updated_keys(cs: Seq<ClaimV>) -> Seq<Seq<char>> {
    cs.map_values(|c: ClaimV| c.updated)
}

pub fn kept_newest_first(claims: &Vec<Claim>, cutoff: &str) -> (r: Vec<Claim>)
    ensures
        exists|o: Seq<usize>|
            {
                &&& #[trigger] text_order(o, updated_keys(kept_spec(claims_view(claims@), cutoff@)), true)
                &&& claims_view(r@) == o.map_values(
                    |k: usize| kept_spec(claims_view(claims@), cutoff@)[k as int],
                )
            },
{
    let ghost cv = claims_view(claims@);
    let ghost pred = still_kept(cutoff@);
    let mut kept: Vec<Claim> = Vec::new();
    let mut i: usize = 0;
    proof {
        assert(cv.take(0).filter(pred) =~= Seq::<ClaimV>::empty());
        assert(claims_view(kept@) =~= Seq::<ClaimV>::empty());
    }
    while i < claims.len()
        invariant
            cv == claims_view(claims@),
            pred == still_kept(cutoff@),
            i <= claims@.len(),
            claims_view(kept@) == cv.take(i as int).filter(pred),
        decreases claims@.len() - i,
    {
        proof {
            crate::seqs::lemma_filter_step(cv, pred, i as int);
        }
        if !str_lt(claims[i].updated.as_str(), cutoff) {
            let c = claims[i].copy();
            let ghost before = claims_view(kept@);
            kept.push(c);
            proof {
                assert(claims_view(kept@) =~= before.push(c.view()));
            }
        }
        i += 1;
    }
    proof {
        assert(cv.take(claims@.len() as int) =~= cv);
    }
    let ghost kv = claims_view(kept@);
    let mut keys: Vec<Vec<char>> = Vec::new();
    let mut j: usize = 0;
    while j < kept.len()
        invariant
            kv == claims_view(kept@),
            j <= kept@.len(),
            keys.deep_view() =~= updated_keys(kv).take(j as int),
        decreases kept@.len() - j,
    {
        let k = chars_of(kept[j].updated.as_str());
        let ghost before = keys.deep_view();
        keys.push(k);
        proof {
            assert(k.deep_view() =~= k@);
            assert(keys.deep_view() =~= before.push(k@));
            assert(updated_keys(kv).take(j + 1) =~= updated_keys(kv).take(j as int).push(kv[j as int].updated));
        }
        j += 1;
    }
    proof {
        assert(updated_keys(kv).take(kept@.len() as int) =~= updated_keys(kv));
    }
    let o = order_by_text(&keys, true);
    let ghost want = o@.map_values(|k: usize| kv[k as int]);
    let mut out: Vec<Claim> = Vec::new();
    let mut m: usize = 0;
    while m < o.len()
        invariant
            text_order(o@, updated_keys(kv), true),
            kv == claims_view(kept@),
            want == o@.map_values(|k: usize| kv[k as int]),
            m <= o@.len(),
            claims_view(out@) =~= want.take(m as int),
        decreases o@.len() - m,
    {
        let k = o[m];
        proof {
            assert(o@[m as int] < updated_keys(kv).len());
        }
        let c = kept[k].copy();
        let ghost before = claims_view(out@);
        out.push(c);
        proof {
            assert(claims_view(out@) =~= before.push(kv[k as int]));
            assert(want.take(m + 1) =~= want.take(m as int).push(kv[k as int]));
        }
        m += 1;
    }
    proof {
        assert(want.take(o@.len() as int) =~= want);
        assert(kv == kept_spec(cv, cutoff@));
        assert(text_order(o@, updated_keys(kept_spec(claims_view(claims@), cutoff@)), true));
    }
    out
}


/// `session` edited `file` at `now` (an ISO time): the path is claimed,
/// the claim is fresh and live again.
pub fn edited(c: &mut Claim, file: &str, now: &str)
    requires
        sorted_keys(old(c).view().files),
    ensures
        sorted_keys(final(c).view().files),
        lookup(final(c).view().files, file@) == Some(now@),
        forall|k: Seq<char>| k != file@ ==> lookup(final(c).view().files, k) == lookup(old(c).view().files, k),
        final(c).view().updated == now@,
        !final(c).ended,
        final(c).view().session == old(c).view().session,
        final(c).view().harness == old(c).view().harness,
        final(c).view().label == old(c).view().label,
        final(c).view().warned == old(c).view().warned,
{
    put(&mut c.files, file, now);
    c.updated = now.to_string();
    c.ended = false;
}

proof fn lemma_sorted_lookup(f: Seq<(Seq<char>, Seq<char>)>, k: int)
    requires
        sorted_keys(f),
        0 <= k < f.len(),
    ensures
        lookup(f, f[k].0) == Some(f[k].1),
{
    assert forall|j: int| 0 <= j < k implies f[j].0 != f[k].0 by {
        assert(seq_lt(f[j].0, f[k].0));
        if f[j].0 == f[k].0 {
            crate::order::lemma_seq_lt_irrefl(f[k].0);
        }
    }
    let c = choose|c: int| 0 <= c < f.len() && f[c].0 == f[k].0 && forall|j: int| 0 <= j < c ==> f[j].0 != f[k].0;
    if c > k {
        assert(f[k].0 != f[k].0);
    }
}

fn put(files: &mut Vec<(String, String)>, key: &str, val: &str)
    requires
        sorted_keys(pairs_view(old(files)@)),
    ensures
        sorted_keys(pairs_view(final(files)@)),
        lookup(pairs_view(final(files)@), key@) == Some(val@),
        forall|k: Seq<char>| k != key@ ==> lookup(pairs_view(final(files)@), k) == lookup(pairs_view(old(files)@), k),
{
    let ghost f = pairs_view(files@);
    let mut p: usize = 0;
    while p < files.len() && str_lt(files[p].0.as_str(), key)
        invariant
            f == pairs_view(files@),
            sorted_keys(f),
            p <= files@.len(),
            forall|i: int| 0 <= i < p ==> seq_lt(#[trigger] f[i].0, key@),
        decreases files@.len() - p,
    {
        p += 1;
    }
    if p < files.len() && str_eq(files[p].0.as_str(), key) {
        files[p].1 = val.to_string();
        proof {
            let g = pairs_view(files@);
            assert(g =~= f.update(p as int, (key@, val@)));
            assert(sorted_keys(g)) by {
                assert forall|i: int, j: int| 0 <= i < j < g.len() implies seq_lt(#[trigger] g[i].0, #[trigger] g[j].0) by {
                    assert(g[i].0 == f[i].0);
                    assert(g[j].0 == f[j].0);
                }
            }
            lemma_sorted_lookup(g, p as int);
            assert forall|k: Seq<char>| k != key@ implies lookup(g, k) == lookup(f, k) by {
                if exists|a: int| 0 <= a < f.len() && f[a].0 == k {
                    let a = choose|a: int| 0 <= a < f.len() && f[a].0 == k;
                    lemma_sorted_lookup(f, a);
                    assert(g[a] == f[a]);
                    lemma_sorted_lookup(g, a);
                } else {
                    assert forall|b: int| 0 <= b < g.len() implies g[b].0 != k by {
                        assert(g[b].0 == f[b].0);
                    }
                }
            }
        }
        return;
    }
    proof {
        if p < files@.len() {
            crate::order::lemma_seq_lt_total(f[p as int].0, key@);
        }
    }
    let ghost old_v = files@;
    let entry = (key.to_string(), val.to_string());
    let ghost ev = entry;
    files.insert(p, entry);
    proof {
        let g = pairs_view(files@);
        old_v.insert_ensures(p as int, ev);
        assert(g =~= f.insert(p as int, (key@, val@))) by {
            assert forall|k: int| 0 <= k < g.len() implies g[k] == f.insert(p as int, (key@, val@))[k] by {
                if k < p {
                    assert(files@[k] == old_v[k]);
                } else if k > p {
                    assert(files@[k] == old_v[k - 1]);
                }
            }
        }
        f.insert_ensures(p as int, (key@, val@));
        assert(sorted_keys(g)) by {
            assert forall|i: int, j: int| 0 <= i < j < g.len() implies seq_lt(#[trigger] g[i].0, #[trigger] g[j].0) by {
                if j < p {
                } else if j == p {
                    assert(g[i] == f[i]);
                } else if i < p {
                    assert(g[i] == f[i]);
                    assert(g[j] == f[j - 1]);
                    crate::order::lemma_seq_lt_trans(f[i].0, key@, f[p as int].0);
                    if j - 1 > p {
                        crate::order::lemma_seq_lt_trans(f[i].0, f[p as int].0, f[j - 1].0);
                    }
                } else if i == p {
                    assert(g[j] == f[j - 1]);
                    if j - 1 > p {
                        crate::order::lemma_seq_lt_trans(key@, f[p as int].0, f[j - 1].0);
                    }
                } else {
                    assert(g[i] == f[i - 1]);
                    assert(g[j] == f[j - 1]);
                }
            }
        }
        lemma_sorted_lookup(g, p as int);
        assert forall|k: Seq<char>| k != key@ implies lookup(g, k) == lookup(f, k) by {
            if exists|a: int| 0 <= a < f.len() && f[a].0 == k {
                let a = choose|a: int| 0 <= a < f.len() && f[a].0 == k;
                lemma_sorted_lookup(f, a);
                if a < p {
                    assert(g[a] == f[a]);
                    lemma_sorted_lookup(g, a);
                } else {
                    assert(g[a + 1] == f[a]);
                    lemma_sorted_lookup(g, a + 1);
                }
            } else {
                assert forall|b: int| 0 <= b < g.len() implies g[b].0 != k by {
                    if b < p {
                        assert(g[b] == f[b]);
                    } else if b > p {
                        assert(g[b] == f[b - 1]);
                    }
                }
            }
        }
    }
}

/// The session ended: its paths are free, its uncommitted files still
/// carry its name. `true` when that changed the claim.
pub fn end(c: &mut Claim) -> (changed: bool)
    ensures
        changed == !old(c).ended,
        final(c).ended,
        final(c).view() == (ClaimV { ended: true, ..old(c).view() }),
{
    if c.ended {
        false
    } else {
        c.ended = true;
        true
    }
}


// ---------------------------------------------------------------------------
// Areas
// ---------------------------------------------------------------------------

/// The first two directories of a path (fewer when it has fewer).
pub open spec fn area_key(f: Seq<char>) -> Seq<char> {
    let parts = split_on(f, '/');
    let n = if parts.len() - 1 < 2 {
        parts.len() - 1
    } else {
        2
    };
    join_spec(parts.take(n), "/"@)
}

pub type AreaGroup = (Seq<char>, Seq<Seq<char>>);

pub open spec fn area_at(gs: Seq<AreaGroup>, k: Seq<char>) -> int {
    if exists|i: int| 0 <= i < gs.len() && gs[i].0 == k {
        choose|i: int| 0 <= i < gs.len() && gs[i].0 == k && forall|j: int| 0 <= j < i ==> gs[j].0 != k
    } else {
        -1
    }
}

pub open spec fn add_area(gs: Seq<AreaGroup>, f: Seq<char>) -> Seq<AreaGroup> {
    let k = area_at(gs, area_key(f));
    if k >= 0 {
        gs.update(k, (gs[k].0, gs[k].1.push(f)))
    } else {
        gs.push((area_key(f), seq![f]))
    }
}

/// Paths grouped by their first two directories, groups in first-seen
/// order.
pub open spec fn area_groups(fs: Seq<Seq<char>>) -> Seq<AreaGroup>
    decreases fs.len(),
{
    if fs.len() == 0 {
        seq![]
    } else {
        add_area(area_groups(fs.drop_last()), fs.last())
    }
}

/// A group of two or more under the same directories is `dir/**`; a lone
/// file, or files at the top, stay themselves.
pub open spec fn group_entries(g: AreaGroup) -> Seq<(nat, Seq<char>)> {
    if g.1.len() == 1 {
        seq![(1nat, g.1[0])]
    } else if g.0.len() == 0 {
        g.1.map_values(|f: Seq<char>| (1nat, f))
    } else {
        seq![(g.1.len(), g.0 + "/**"@)]
    }
}

pub open spec fn all_entries(gs: Seq<AreaGroup>) -> Seq<(nat, Seq<char>)>
    decreases gs.len(),
{
    if gs.len() == 0 {
        seq![]
    } else {
        all_entries(gs.drop_last()) + group_entries(gs.last())
    }
}

pub open spec fn entry_names(es: Seq<(nat, Seq<char>)>) -> Seq<Seq<char>> {
    es.map_values(|e: (nat, Seq<char>)| e.1)
}

pub open spec fn entry_counts(es: Seq<(nat, Seq<char>)>, o: Seq<usize>) -> Seq<u128> {
    o.map_values(|i: usize| es[i as int].0 as u128)
}

/// `out` is the names of `es`, the largest count first, equal counts in
/// name order.
pub open spec fn ranked_areas(es: Seq<(nat, Seq<char>)>, out: Seq<Seq<char>>) -> bool {
    exists|o1: Seq<usize>, o2: Seq<usize>|
        #[trigger] text_order(o1, entry_names(es), false) && #[trigger] num_order(o2, entry_counts(es, o1), true)
            && out == o2.map_values(|j: usize| es[o1[j as int] as int].1)
}

proof fn lemma_ranked_unique(es: Seq<(nat, Seq<char>)>, a: Seq<Seq<char>>, b: Seq<Seq<char>>)
    requires
        ranked_areas(es, a),
        ranked_areas(es, b),
    ensures
        a == b,
{
    let (o1, o2) = choose|o1: Seq<usize>, o2: Seq<usize>|
        #[trigger] text_order(o1, entry_names(es), false) && #[trigger] num_order(o2, entry_counts(es, o1), true)
            && a == o2.map_values(|j: usize| es[o1[j as int] as int].1);
    let (p1, p2) = choose|o1: Seq<usize>, o2: Seq<usize>|
        #[trigger] text_order(o1, entry_names(es), false) && #[trigger] num_order(o2, entry_counts(es, o1), true)
            && b == o2.map_values(|j: usize| es[o1[j as int] as int].1);
    crate::order::lemma_text_order_unique(o1, p1, entry_names(es), false);
    crate::order::lemma_num_order_unique(o2, p2, entry_counts(es, o1), true);
}

/// The areas of `fs`, as `areas` lists them.
pub open spec fn areas_spec(fs: Seq<Seq<char>>) -> Seq<Seq<char>> {
    choose|out: Seq<Seq<char>>| ranked_areas(all_entries(area_groups(fs)), out)
}

pub open spec fn strs_view(v: Seq<&str>) -> Seq<Seq<char>> {
    v.map_values(|s: &str| s@)
}

fn area_key_exec(f: &[char]) -> (r: Vec<char>)
    ensures
        r@ == area_key(f@),
{
    let parts = split_char(f, '/');
    let n = if parts.len() - 1 < 2 {
        parts.len() - 1
    } else {
        2
    };
    let mut first: Vec<Vec<char>> = Vec::new();
    let mut i: usize = 0;
    while i < n
        invariant
            n <= parts@.len(),
            i <= n,
            first.deep_view() =~= parts.deep_view().take(i as int),
        decreases n - i,
    {
        let c = crate::text::copy_chars(&parts[i]);
        proof {
            assert(c.deep_view() =~= c@);
        }
        let ghost before = first.deep_view();
        first.push(c);
        proof {
            assert(first.deep_view() =~= before.push(c@));
            assert(parts.deep_view().take(i + 1) =~= parts.deep_view().take(i as int).push(parts@[i as int]@));
        }
        i += 1;
    }
    let sep = chars_of("/");
    join(&first, &sep)
}

pub open spec fn members_of(idx: Seq<usize>, fs: Seq<Seq<char>>) -> Seq<Seq<char>> {
    idx.map_values(|i: usize| fs[i as int])
}

pub open spec fn area_view(keys: Seq<Seq<char>>, members: Seq<Seq<usize>>, fs: Seq<Seq<char>>) -> Seq<AreaGroup> {
    Seq::new(keys.len(), |k: int| (keys[k], members_of(members[k], fs)))
}

/// Paths grouped into areas: two or more files under the same first two
/// directories become `dir/**`, a lone file stays itself. Largest first,
/// then in name order.
pub fn areas(files: &[&str]) -> (out: Vec<String>)
    ensures
        ranked_areas(all_entries(area_groups(strs_view(files@))), out.deep_view()),
        out.deep_view() == areas_spec(strs_view(files@)),
{
    let ghost fs = strs_view(files@);
    let mut keys: Vec<Vec<char>> = Vec::new();
    let mut members: Vec<Vec<usize>> = Vec::new();
    let mut i: usize = 0;
    proof {
        assert(fs.take(0) =~= Seq::<Seq<char>>::empty());
        assert(area_view(keys.deep_view(), members.deep_view(), fs) =~= area_groups(fs.take(0)));
    }
    while i < files.len()
        invariant
            fs == strs_view(files@),
            i <= files@.len(),
            keys@.len() == members@.len(),
            forall|k: int| 0 <= k < members@.len() ==> #[trigger] members@[k]@.len() > 0,
            forall|k: int, j: int|
                0 <= k < members@.len() && 0 <= j < members@[k]@.len() ==> #[trigger] members@[k]@[j] < i,
            area_view(keys.deep_view(), members.deep_view(), fs) == area_groups(fs.take(i as int)),
        decreases files@.len() - i,
    {
        let ghost gs = area_groups(fs.take(i as int));
        let fc = chars_of(files[i]);
        let key = area_key_exec(&fc);
        proof {
            assert(fs.take(i + 1).drop_last() =~= fs.take(i as int));
            assert(fs.take(i + 1).last() == fs[i as int]);
            assert(fs[i as int] == files@[i as int]@);
        }
        let mut k: usize = 0;
        while k < keys.len() && !chars_eq(&keys[k], &key)
            invariant
                k <= keys@.len(),
                keys@.len() == members@.len(),
                gs == area_view(keys.deep_view(), members.deep_view(), fs),
                forall|j: int| 0 <= j < k ==> #[trigger] gs[j].0 != key@,
            decreases keys@.len() - k,
        {
            proof {
                assert(gs[k as int].0 == keys@[k as int]@);
            }
            k += 1;
        }
        if k < keys.len() {
            proof {
                assert(gs[k as int].0 == keys@[k as int]@);
                let g = area_at(gs, key@);
                if g != k {
                    if g < k {
                        assert(gs[g].0 != key@);
                    } else {
                        assert(gs[k as int].0 != key@);
                    }
                }
            }
            let ghost before = members.deep_view();
            members[k].push(i);
            proof {
                assert(members.deep_view()[k as int] =~= before[k as int].push(i));
                assert forall|j: int| 0 <= j < members@.len() && j != k implies #[trigger] members.deep_view()[j] == before[j] by {}
                assert(members_of(members.deep_view()[k as int], fs) =~= gs[k as int].1.push(fs[i as int]));
                assert(area_view(keys.deep_view(), members.deep_view(), fs) =~= add_area(gs, fs[i as int]));
            }
        } else {
            proof {
                assert(area_at(gs, key@) == -1);
            }
            let ghost bk = keys.deep_view();
            let ghost bm = members.deep_view();
            let mut one: Vec<usize> = Vec::new();
            one.push(i);
            proof {
                assert(key.deep_view() =~= key@);
                assert(one.deep_view() =~= seq![i]);
            }
            keys.push(key);
            members.push(one);
            proof {
                assert(keys.deep_view() =~= bk.push(area_key(fs[i as int])));
                assert(members.deep_view() =~= bm.push(seq![i]));
                assert(members_of(members.deep_view()[k as int], fs) =~= seq![fs[i as int]]);
                assert(area_view(keys.deep_view(), members.deep_view(), fs) =~= add_area(gs, fs[i as int]));
            }
        }
        i += 1;
    }
    proof {
        assert(fs.take(files@.len() as int) =~= fs);
    }
    let ghost gs = area_groups(fs);
    // Entries, group by group.
    let mut counts: Vec<usize> = Vec::new();
    let mut names: Vec<Vec<char>> = Vec::new();
    let mut g: usize = 0;
    proof {
        assert(gs.take(0) =~= Seq::<AreaGroup>::empty());
    }
    while g < keys.len()
        invariant
            fs == strs_view(files@),
            keys@.len() == members@.len(),
            forall|k: int| 0 <= k < members@.len() ==> #[trigger] members@[k]@.len() > 0,
            forall|k: int, j: int|
                0 <= k < members@.len() && 0 <= j < members@[k]@.len() ==> #[trigger] members@[k]@[j] < files@.len(),
            gs == area_view(keys.deep_view(), members.deep_view(), fs),
            g <= keys@.len(),
            counts@.len() == names@.len(),
            forall|j: int| 0 <= j < counts@.len() ==> (#[trigger] counts@[j] as nat, names.deep_view()[j]) == all_entries(gs.take(g as int))[j],
            names@.len() == all_entries(gs.take(g as int)).len(),
        decreases keys@.len() - g,
    {
        let ghost es0 = all_entries(gs.take(g as int));
        let ghost grp = gs[g as int];
        proof {
            assert(gs.take(g + 1).drop_last() =~= gs.take(g as int));
            assert(gs.take(g + 1).last() == grp);
            assert(grp == (keys@[g as int]@, members_of(members@[g as int]@, fs)));
        }
        let ghost c0 = counts@;
        let ghost n0 = names.deep_view();
        let m = members[g].len();
        if m == 1 {
            let f = chars_of(files[members[g][0]]);
            proof {
                assert(f.deep_view() =~= f@);
            }
            counts.push(1);
            names.push(f);
            proof {
                assert(names.deep_view() =~= n0.push(f@));
                assert(group_entries(grp) =~= seq![(1nat, f@)]);
            }
        } else if keys[g].len() == 0 {
            let ghost mv = members_of(members@[g as int]@, fs);
            let mut j: usize = 0;
            while j < m
                invariant
                    m == members@[g as int]@.len(),
                    mv == members_of(members@[g as int]@, fs),
                    g < members@.len(),
                    forall|k: int, t: int|
                        0 <= k < members@.len() && 0 <= t < members@[k]@.len() ==> #[trigger] members@[k]@[t] < files@.len(),
                    fs == strs_view(files@),
                    j <= m,
                    names.deep_view() == n0 + mv.take(j as int),
                    counts@ == c0 + Seq::new(j as nat, |t: int| 1usize),
                decreases m - j,
            {
                let f = chars_of(files[members[g][j]]);
                proof {
                    assert(f.deep_view() =~= f@);
                    assert(f@ == mv[j as int]);
                }
                let ghost nb = names.deep_view();
                let ghost cb = counts@;
                counts.push(1);
                names.push(f);
                proof {
                    assert(names.deep_view() =~= nb.push(f@));
                    assert(names.deep_view() =~= n0 + mv.take(j + 1));
                    assert(counts@ =~= c0 + Seq::new((j + 1) as nat, |t: int| 1usize));
                }
                j += 1;
            }
            proof {
                assert(mv.take(m as int) =~= mv);
                assert(grp.1 == mv);
            }
        } else {
            let mut n = crate::text::copy_chars(&keys[g]);
            push_text(&mut n, "/**");
            proof {
                assert(n.deep_view() =~= n@);
            }
            counts.push(m);
            names.push(n);
            proof {
                assert(names.deep_view() =~= n0.push(n@));
                assert(grp.1.len() == m);
                assert(group_entries(grp) =~= seq![(m as nat, n@)]);
            }
        }
        proof {
            let es1 = all_entries(gs.take(g + 1));
            assert(es1 == es0 + group_entries(grp));
            assert(names@.len() == es1.len());
            assert forall|j: int| 0 <= j < counts@.len() implies (#[trigger] counts@[j] as nat, names.deep_view()[j]) == es1[j] by {
                if j >= c0.len() {
                    assert(es1[j] == group_entries(grp)[j - c0.len()]);
                    if m != 1 && keys@[g as int]@.len() == 0 {
                        assert(group_entries(grp)[j - c0.len()] == (1nat, grp.1[j - c0.len()]));
                        assert(counts@[j] == 1);
                        assert(names.deep_view()[j] == grp.1[j - c0.len()]);
                    }
                } else {
                    assert(es1[j] == es0[j]);
                }
            }
        }
        g += 1;
    }
    proof {
        assert(gs.take(keys@.len() as int) =~= gs);
    }
    let ghost es = all_entries(gs);
    proof {
        assert(names@.len() == es.len());
        assert forall|j: int| 0 <= j < es.len() implies names.deep_view()[j] == entry_names(es)[j] by {
            assert((counts@[j] as nat, names.deep_view()[j]) == es[j]);
        }
        assert(names.deep_view() =~= entry_names(es));
    }
    let o1 = order_by_text(&names, false);
    let mut ck: Vec<u128> = Vec::new();
    let mut a: usize = 0;
    while a < o1.len()
        invariant
            crate::order::is_order(o1@, names@.len()),
            counts@.len() == names@.len(),
            es.len() == names@.len(),
            forall|j: int| 0 <= j < counts@.len() ==> (#[trigger] counts@[j] as nat, names.deep_view()[j]) == es[j],
            a <= o1@.len(),
            ck@ =~= entry_counts(es, o1@).take(a as int),
        decreases o1@.len() - a,
    {
        ck.push(counts[o1[a]] as u128);
        proof {
            assert(counts@[o1@[a as int] as int] as nat == es[o1@[a as int] as int].0);
            assert(entry_counts(es, o1@).take(a + 1) =~= entry_counts(es, o1@).take(a as int).push(
                es[o1@[a as int] as int].0 as u128,
            ));
        }
        a += 1;
    }
    proof {
        assert(entry_counts(es, o1@).take(o1@.len() as int) =~= entry_counts(es, o1@));
    }
    let o2 = order_by_num(&ck, true);
    let mut out: Vec<String> = Vec::new();
    let mut b: usize = 0;
    while b < o2.len()
        invariant
            crate::order::is_order(o1@, names@.len()),
            crate::order::is_order(o2@, o1@.len()),
            counts@.len() == names@.len(),
            es.len() == names@.len(),
            forall|j: int| 0 <= j < counts@.len() ==> (#[trigger] counts@[j] as nat, names.deep_view()[j]) == es[j],
            b <= o2@.len(),
            out.deep_view() =~= o2@.take(b as int).map_values(|j: usize| es[o1@[j as int] as int].1),
        decreases o2@.len() - b,
    {
        let idx = o1[o2[b]];
        let sv = string_of(&names[idx]);
        let ghost before = out.deep_view();
        out.push(sv);
        proof {
            assert((counts@[idx as int] as nat, names.deep_view()[idx as int]) == es[idx as int]);
            assert(names.deep_view()[idx as int] == names@[idx as int]@);
            assert(out.deep_view() =~= before.push(sv@));
            assert(o2@.take(b + 1) =~= o2@.take(b as int).push(o2@[b as int]));
        }
        b += 1;
    }
    proof {
        assert(o2@.take(o2@.len() as int) =~= o2@);
        assert(text_order(o1@, entry_names(es), false));
        assert(num_order(o2@, entry_counts(es, o1@), true));
        assert(ranked_areas(es, out.deep_view()));
        let c = areas_spec(fs);
        assert(ranked_areas(es, c));
        lemma_ranked_unique(es, out.deep_view(), c);
    }
    out
}


// ---------------------------------------------------------------------------
// Who is in the way
// ---------------------------------------------------------------------------

pub open spec fn claims_view(v: Seq<Claim>) -> Seq<ClaimV> {
    v.map_values(|c: Claim| c.view())
}

/// Another session's live claim on `file`.
pub open spec fn candidate(c: ClaimV, session: Seq<char>, file: Seq<char>, now: nat) -> bool {
    c.session != session && live(c, now) && lookup(c.files, file) is Some
}

/// Index of the candidate that edited `file` last (the later of equals),
/// or -1.
pub open spec fn latest_edit(cs: Seq<ClaimV>, session: Seq<char>, file: Seq<char>, now: nat) -> int
    decreases cs.len(),
{
    if cs.len() == 0 {
        -1
    } else {
        let b = latest_edit(cs.drop_last(), session, file, now);
        let i = cs.len() - 1;
        if candidate(cs[i], session, file, now) && (b < 0 || !seq_lt(
            lookup(cs[i].files, file)->0,
            lookup(cs[b].files, file)->0,
        )) {
            i
        } else {
            b
        }
    }
}

pub open spec fn when_spec(t: Seq<char>, now: nat) -> Seq<char> {
    match parse_iso_spec(t) {
        Some(x) => ago_spec(x, now),
        None => seq![],
    }
}

/// The live claim other than `session`'s that edited `file` most
/// recently, and how long ago.
pub open spec fn conflict_spec(cs: Seq<ClaimV>, session: Seq<char>, file: Seq<char>, now: nat) -> Option<(int, Seq<char>)> {
    let k = latest_edit(cs, session, file, now);
    if k < 0 {
        None
    } else {
        Some((k, when_spec(lookup(cs[k].files, file)->0, now)))
    }
}

proof fn lemma_latest_range(cs: Seq<ClaimV>, session: Seq<char>, file: Seq<char>, now: nat)
    ensures
        -1 <= latest_edit(cs, session, file, now) < cs.len(),
        latest_edit(cs, session, file, now) >= 0 ==> candidate(cs[latest_edit(cs, session, file, now)], session, file, now),
    decreases cs.len(),
{
    if cs.len() > 0 {
        lemma_latest_range(cs.drop_last(), session, file, now);
    }
}

proof fn lemma_latest_step(cv: Seq<ClaimV>, i: int, session: Seq<char>, file: Seq<char>, now: nat)
    requires
        0 <= i < cv.len(),
    ensures
        ({
            let b = latest_edit(cv.take(i), session, file, now);
            &&& -1 <= b < i
            &&& latest_edit(cv.take(i + 1), session, file, now) == if candidate(cv[i], session, file, now) && (b
                < 0 || !seq_lt(lookup(cv[i].files, file)->0, lookup(cv[b].files, file)->0)) {
                i
            } else {
                b
            }
        }),
{
    assert(cv.take(i + 1).drop_last() =~= cv.take(i));
    lemma_latest_range(cv.take(i), session, file, now);
    let b = latest_edit(cv.take(i), session, file, now);
    if b >= 0 {
        assert(cv.take(i + 1)[b] == cv[b]);
    }
    assert(cv.take(i + 1)[i] == cv[i]);
}

fn when_exec(t: &str, now: u64) -> (r: String)
    ensures
        r@ == when_spec(t@, now as nat),
{
    match parse_iso(t) {
        Some(x) => ago(x, now),
        None => String::new(),
    }
}

/// When `c` is a candidate for `file`, the time it edited it.
fn candidate_time(c: &Claim, session: &str, file: &str, now: u64) -> (r: Option<String>)
    ensures
        match r {
            Some(t) => candidate(c.view(), session@, file@, now as nat) && lookup(c.view().files, file@) == Some(t@),
            None => !candidate(c.view(), session@, file@, now as nat),
        },
{
    if !str_eq(c.session.as_str(), session) && c.is_live(now) {
        lookup_exec(&c.files, file)
    } else {
        None
    }
}

pub fn conflict(claims: &[Claim], session: &str, file: &str, now: u64) -> (r: Option<(usize, String)>)
    ensures
        match r {
            Some((k, w)) => conflict_spec(claims_view(claims@), session@, file@, now as nat) == Some((k as int, w@)),
            None => conflict_spec(claims_view(claims@), session@, file@, now as nat) is None,
        },
{
    let ghost cv = claims_view(claims@);
    let mut best: Option<(usize, String)> = None;
    let mut i: usize = 0;
    proof {
        assert(cv.take(0) =~= Seq::<ClaimV>::empty());
    }
    while i < claims.len()
        invariant
            cv == claims_view(claims@),
            i <= claims@.len(),
            match best {
                Some((k, t)) => latest_edit(cv.take(i as int), session@, file@, now as nat) == k as int
                    && k < i && lookup(cv[k as int].files, file@) == Some(t@),
                None => latest_edit(cv.take(i as int), session@, file@, now as nat) == -1,
            },
        decreases claims@.len() - i,
    {
        let c = &claims[i];
        proof {
            lemma_latest_step(cv, i as int, session@, file@, now as nat);
            assert(cv[i as int] == c.view());
        }
        match candidate_time(c, session, file, now) {
                Some(t) => {
                    let take = match &best {
                        Some((_, bt)) => !str_lt(t.as_str(), bt.as_str()),
                        None => true,
                    };
                    if take {
                        best = Some((i, t));
                    }
                },
                None => {},
        }
        i += 1;
    }
    proof {
        assert(cv.take(claims@.len() as int) =~= cv);
    }
    match best {
        Some((k, t)) => {
            let w = when_exec(t.as_str(), now);
            Some((k, w))
        },
        None => None,
    }
}

pub open spec fn warning_spec(name: Seq<char>, file: Seq<char>, when: Seq<char>) -> Seq<char> {
    "relay: session "@ + name + " edited "@ + file + " "@ + when
        + " and is still working in this checkout. Re-read the file before editing, keep to your own paths, or move this work to a worktree (`git worktree add`), or one of you will spend the next hour on a rebase."@
}

/// Every session id here can be cut at its eighth byte.
pub open spec fn nameable(cs: Seq<ClaimV>) -> bool {
    forall|i: int| 0 <= i < cs.len() ==> cuts_at(#[trigger] cs[i].session, 8)
}

/// Another live session that edited `file`, when `mine` (the claim of
/// `session`) has not been told about it yet; marks it told.
pub fn warn_once(claims: &[Claim], mine: &mut Claim, session: &str, file: &str, now: u64) -> (r: Option<String>)
    requires
        nameable(claims_view(claims@)),
    ensures
        match conflict_spec(claims_view(claims@), session@, file@, now as nat) {
            None => r is None && final(mine).view() == old(mine).view(),
            Some((k, when)) => if old(mine).view().warned.contains(file@) {
                r is None && final(mine).view() == old(mine).view()
            } else {
                r is Some && r->0@ == warning_spec(name_spec(claims_view(claims@)[k]), file@, when)
                    && final(mine).view() == (ClaimV { warned: old(mine).view().warned.push(file@), ..old(mine).view() })
            },
        },
{
    let ghost cv = claims_view(claims@);
    match conflict(claims, session, file, now) {
        None => None,
        Some((k, when)) => {
            proof {
                lemma_latest_range(cv, session@, file@, now as nat);
                assert(cv[k as int] == claims@[k as int].view());
            }
            if crate::strset::has_str(&mine.warned, file) {
                return None;
            }
            let ghost before = mine.warned.deep_view();
            mine.warned.push(file.to_string());
            proof {
                assert(mine.warned.deep_view() =~= before.push(file@));
                assert(mine.view() =~= (ClaimV { warned: old(mine).view().warned.push(file@), ..old(mine).view() }));
            }
            let name = claims[k].name();
            let mut m = chars_of("relay: session ");
            push_text(&mut m, name.as_str());
            push_text(&mut m, " edited ");
            push_text(&mut m, file);
            push_text(&mut m, " ");
            push_text(&mut m, when.as_str());
            push_text(
                &mut m,
                " and is still working in this checkout. Re-read the file before editing, keep to your own paths, or move this work to a worktree (`git worktree add`), or one of you will spend the next hour on a rebase.",
            );
            Some(string_of(&m))
        },
    }
}


// ---------------------------------------------------------------------------
// The brief's section
// ---------------------------------------------------------------------------

/// Index of the claim that edited `d` last (the later of equals), or -1.
pub open spec fn holder(cs: Seq<ClaimV>, d: Seq<char>) -> int
    decreases cs.len(),
{
    if cs.len() == 0 {
        -1
    } else {
        let b = holder(cs.drop_last(), d);
        let i = cs.len() - 1;
        if lookup(cs[i].files, d) is Some && (b < 0 || !seq_lt(lookup(cs[i].files, d)->0, lookup(cs[b].files, d)->0)) {
            i
        } else {
            b
        }
    }
}

proof fn lemma_holder_range(cs: Seq<ClaimV>, d: Seq<char>)
    ensures
        -1 <= holder(cs, d) < cs.len(),
        holder(cs, d) >= 0 ==> lookup(cs[holder(cs, d)].files, d) is Some,
    decreases cs.len(),
{
    if cs.len() > 0 {
        lemma_holder_range(cs.drop_last(), d);
    }
}

/// Each uncommitted file goes to the claim that edited it last: to none
/// exactly when no claim edited it; else to a claim that edited it, no
/// other claim edited it later, and a claim after it that edited it did
/// so strictly earlier (of equal times, the later claim wins). Times
/// compare as text, which orders ISO stamps by time.
pub proof fn law_holder_edited_last(cs: Seq<ClaimV>, d: Seq<char>)
    ensures
        holder(cs, d) == -1 <==> forall|j: int| 0 <= j < cs.len() ==> #[trigger] lookup(cs[j].files, d) is None,
        holder(cs, d) >= 0 ==> {
            let h = holder(cs, d);
            &&& h < cs.len()
            &&& lookup(cs[h].files, d) is Some
            &&& forall|j: int|
                0 <= j < cs.len() && #[trigger] lookup(cs[j].files, d) is Some ==> !seq_lt(
                    lookup(cs[h].files, d)->0,
                    lookup(cs[j].files, d)->0,
                )
            &&& forall|j: int|
                h < j < cs.len() && #[trigger] lookup(cs[j].files, d) is Some ==> seq_lt(
                    lookup(cs[j].files, d)->0,
                    lookup(cs[h].files, d)->0,
                )
        },
    decreases cs.len(),
{
    lemma_holder_range(cs, d);
    if cs.len() > 0 {
        let p = cs.drop_last();
        law_holder_edited_last(p, d);
        lemma_holder_range(p, d);
        let b = holder(p, d);
        let i = cs.len() - 1;
        assert forall|j: int| 0 <= j < i implies cs[j] == #[trigger] p[j] by {}
        if holder(cs, d) == i {
            let ti = lookup(cs[i].files, d)->0;
            assert forall|j: int|
                0 <= j < cs.len() && #[trigger] lookup(cs[j].files, d) is Some implies !seq_lt(
                    ti,
                    lookup(cs[j].files, d)->0,
                ) by {
                let tj = lookup(cs[j].files, d)->0;
                if j == i {
                    crate::order::lemma_seq_lt_irrefl(ti);
                } else {
                    assert(cs[j] == p[j]);
                    assert(lookup(p[j].files, d) is Some);
                    assert(b >= 0);
                    let tb = lookup(p[b].files, d)->0;
                    assert(cs[b] == p[b]);
                    assert(!seq_lt(tb, tj));
                    assert(!seq_lt(ti, tb));
                    crate::order::lemma_seq_lt_total(ti, tb);
                    if seq_lt(ti, tj) {
                        if seq_lt(tb, ti) {
                            crate::order::lemma_seq_lt_trans(tb, ti, tj);
                        }
                    }
                }
            }
        } else {
            assert(holder(cs, d) == b);
            if b < 0 {
                assert(lookup(cs[i].files, d) is None);
                assert forall|j: int| 0 <= j < cs.len() implies #[trigger] lookup(cs[j].files, d) is None by {
                    if j < i {
                        assert(cs[j] == p[j]);
                        assert(lookup(p[j].files, d) is None);
                    }
                }
            } else {
                let tb = lookup(p[b].files, d)->0;
                assert(cs[b] == p[b]);
                assert forall|j: int|
                    0 <= j < cs.len() && #[trigger] lookup(cs[j].files, d) is Some implies !seq_lt(
                        tb,
                        lookup(cs[j].files, d)->0,
                    ) by {
                    if j == i {
                        crate::order::lemma_seq_lt_asym(lookup(cs[i].files, d)->0, tb);
                    } else {
                        assert(cs[j] == p[j]);
                        assert(lookup(p[j].files, d) is Some);
                    }
                }
                assert forall|j: int|
                    b < j < cs.len() && #[trigger] lookup(cs[j].files, d) is Some implies seq_lt(
                        lookup(cs[j].files, d)->0,
                        tb,
                    ) by {
                    if j < i {
                        assert(cs[j] == p[j]);
                        assert(lookup(p[j].files, d) is Some);
                    }
                }
            }
        }
    }
}

pub open spec fn held_by(cs: Seq<ClaimV>, i: int) -> spec_fn(Seq<char>) -> bool {
    |d: Seq<char>| holder(cs, d) == i
}

/// The uncommitted files whose last editor is claim `i`, in `dirty` order.
pub open spec fn owned_by(cs: Seq<ClaimV>, dirty: Seq<Seq<char>>, i: int) -> Seq<Seq<char>> {
    dirty.filter(held_by(cs, i))
}

/// The uncommitted files of the first claim of session `sess` that holds
/// any.
pub open spec fn dirty_of(cs: Seq<ClaimV>, dirty: Seq<Seq<char>>, sess: Seq<char>) -> Seq<Seq<char>> {
    if exists|j: int| 0 <= j < cs.len() && cs[j].session == sess && owned_by(cs, dirty, j).len() > 0 {
        let j = choose|j: int|
            0 <= j < cs.len() && cs[j].session == sess && owned_by(cs, dirty, j).len() > 0 && forall|t: int|
                0 <= t < j ==> !(cs[t].session == sess && owned_by(cs, dirty, t).len() > 0);
        owned_by(cs, dirty, j)
    } else {
        seq![]
    }
}

/// The first `max` items, and how many more there are.
pub open spec fn listed_spec(items: Seq<Seq<char>>, max: nat) -> Seq<char> {
    if items.len() <= max {
        join_spec(items, ", "@)
    } else {
        join_spec(items.take(max as int), ", "@) + " (+"@ + dec((items.len() - max) as nat) + ")"@
    }
}

pub open spec fn keys_of(files: Seq<(Seq<char>, Seq<char>)>) -> Seq<Seq<char>> {
    files.map_values(|p: (Seq<char>, Seq<char>)| p.0)
}

/// The line for one other session, when there is anything to say.
pub open spec fn claim_line(c: ClaimV, cs: Seq<ClaimV>, dirty: Seq<Seq<char>>, now: nat) -> Option<Seq<char>> {
    let dh = dirty_of(cs, dirty, c.session);
    let active = live(c, now);
    if !active && dh.len() == 0 {
        None
    } else {
        let when = when_spec(c.updated, now);
        let head = if active {
            "- "@ + name_spec(c) + ", last edit "@ + when + ": editing "@ + listed_spec(
                areas_spec(keys_of(c.files)),
                CLAIM_AREAS_SHOWN as nat,
            )
        } else {
            "- "@ + name_spec(c) + ", ended "@ + when
        };
        Some(
            head + if dh.len() > 0 {
                "; uncommitted: "@ + listed_spec(dh, CLAIM_DIRTY_SHOWN as nat)
            } else {
                seq![]
            },
        )
    }
}

pub open spec fn claim_lines(cs: Seq<ClaimV>, all: Seq<ClaimV>, dirty: Seq<Seq<char>>, now: nat) -> Seq<Seq<char>>
    decreases cs.len(),
{
    if cs.len() == 0 {
        seq![]
    } else {
        let rest = claim_lines(cs.drop_last(), all, dirty, now);
        match claim_line(cs.last(), all, dirty, now) {
            Some(l) => rest.push(l),
            None => rest,
        }
    }
}

/// Lines added to `acc` while they fit in the brief's budget; `- …` for
/// the first that does not.
pub open spec fn packed(ls: Seq<Seq<char>>, acc: Seq<char>) -> Seq<char>
    decreases ls.len(),
{
    if ls.len() == 0 {
        acc
    } else if utf8_len(acc) + utf8_len(ls[0]) > CLAIM_BRIEF_CHARS {
        acc + "- …\n"@
    } else {
        packed(ls.drop_first(), acc + ls[0] + "\n"@)
    }
}

pub open spec fn not_me(me: Option<Seq<char>>) -> spec_fn(ClaimV) -> bool {
    |c: ClaimV| me != Some(c.session)
}

/// The brief's section on the other sessions in this checkout: what each
/// live one is editing and which uncommitted files are whose. Empty when
/// there is nothing to say.
pub open spec fn section_spec(cs: Seq<ClaimV>, dirty: Seq<Seq<char>>, me: Option<Seq<char>>, now: nat) -> Seq<char> {
    let others = cs.filter(not_me(me));
    let ls = claim_lines(others, others, dirty, now);
    if ls.len() == 0 {
        seq![]
    } else {
        packed(ls, "## Other sessions in this checkout\n"@)
            + "_Leave their paths and uncommitted files alone, or work in a worktree._\n\n"@
    }
}

fn listed(items: &Vec<Vec<char>>, max: usize) -> (r: Vec<char>)
    ensures
        r@ == listed_spec(items.deep_view(), max as nat),
{
    let sep = chars_of(", ");
    if items.len() <= max {
        return join(items, &sep);
    }
    let mut first: Vec<Vec<char>> = Vec::new();
    let mut i: usize = 0;
    while i < max
        invariant
            max < items@.len(),
            i <= max,
            first.deep_view() =~= items.deep_view().take(i as int),
        decreases max - i,
    {
        let c = crate::text::copy_chars(&items[i]);
        proof {
            assert(c.deep_view() =~= c@);
        }
        let ghost before = first.deep_view();
        first.push(c);
        proof {
            assert(first.deep_view() =~= before.push(c@));
            assert(items.deep_view().take(i + 1) =~= items.deep_view().take(i as int).push(items@[i as int]@));
        }
        i += 1;
    }
    let mut r = join(&first, &sep);
    push_text(&mut r, " (+");
    push_dec(&mut r, (items.len() - max) as u64);
    push_text(&mut r, ")");
    r
}

fn holder_exec(claims: &Vec<Claim>, d: &str) -> (r: Option<usize>)
    ensures
        match r {
            Some(k) => holder(claims_view(claims@), d@) == k as int,
            None => holder(claims_view(claims@), d@) == -1,
        },
{
    let ghost cv = claims_view(claims@);
    let mut best: Option<(usize, String)> = None;
    let mut i: usize = 0;
    proof {
        assert(cv.take(0) =~= Seq::<ClaimV>::empty());
    }
    while i < claims.len()
        invariant
            cv == claims_view(claims@),
            i <= claims@.len(),
            match best {
                Some((k, t)) => holder(cv.take(i as int), d@) == k as int && k < i && lookup(cv[k as int].files, d@)
                    == Some(t@),
                None => holder(cv.take(i as int), d@) == -1,
            },
        decreases claims@.len() - i,
    {
        proof {
            assert(cv.take(i + 1).drop_last() =~= cv.take(i as int));
            assert(cv.take(i + 1)[i as int] == claims@[i as int].view());
            lemma_holder_range(cv.take(i as int), d@);
        }
        match lookup_exec(&claims[i].files, d) {
            Some(t) => {
                let take = match &best {
                    Some((_, bt)) => !str_lt(t.as_str(), bt.as_str()),
                    None => true,
                };
                proof {
                    match best {
                        Some((k, _)) => {
                            assert(cv.take(i as int)[k as int] == cv[k as int]);
                        },
                        None => {},
                    }
                }
                if take {
                    best = Some((i, t));
                }
            },
            None => {},
        }
        i += 1;
    }
    proof {
        assert(cv.take(claims@.len() as int) =~= cv);
    }
    match best {
        Some((k, _)) => Some(k),
        None => None,
    }
}

/// For each uncommitted file, the claim that edited it last.
fn holders(claims: &Vec<Claim>, dirty: &[String]) -> (r: Vec<Option<usize>>)
    ensures
        r@.len() == dirty@.len(),
        forall|i: int| 0 <= i < dirty@.len() ==> match #[trigger] r@[i] {
            Some(k) => holder(claims_view(claims@), dirty@[i]@) == k as int,
            None => holder(claims_view(claims@), dirty@[i]@) == -1,
        },
{
    let mut r: Vec<Option<usize>> = Vec::new();
    let mut i: usize = 0;
    while i < dirty.len()
        invariant
            i <= dirty@.len(),
            r@.len() == i,
            forall|j: int| 0 <= j < i ==> match #[trigger] r@[j] {
                Some(k) => holder(claims_view(claims@), dirty@[j]@) == k as int,
                None => holder(claims_view(claims@), dirty@[j]@) == -1,
            },
        decreases dirty@.len() - i,
    {
        let h = holder_exec(claims, dirty[i].as_str());
        r.push(h);
        i += 1;
    }
    r
}

/// The uncommitted files held by claim `i`.
#[verifier::rlimit(30)]
fn owned(hs: &Vec<Option<usize>>, dirty: &[String], i: usize, claims: &Vec<Claim>) -> (r: Vec<Vec<char>>)
    requires
        hs@.len() == dirty@.len(),
        forall|j: int| 0 <= j < dirty@.len() ==> match #[trigger] hs@[j] {
            Some(k) => holder(claims_view(claims@), dirty@[j]@) == k as int,
            None => holder(claims_view(claims@), dirty@[j]@) == -1,
        },
    ensures
        r.deep_view() == owned_by(claims_view(claims@), dirty@.map_values(|s: String| s@), i as int),
{
    let ghost dv = dirty@.map_values(|s: String| s@);
    let ghost p = held_by(claims_view(claims@), i as int);
    let mut r: Vec<Vec<char>> = Vec::new();
    let mut j: usize = 0;
    proof {
        assert(dv.take(0).filter(p) =~= Seq::<Seq<char>>::empty()) by {
            reveal(Seq::filter);
        }
    }
    while j < dirty.len()
        invariant
            dv == dirty@.map_values(|s: String| s@),
            p == held_by(claims_view(claims@), i as int),
            hs@.len() == dirty@.len(),
            forall|t: int| 0 <= t < dirty@.len() ==> match #[trigger] hs@[t] {
                Some(k) => holder(claims_view(claims@), dirty@[t]@) == k as int,
                None => holder(claims_view(claims@), dirty@[t]@) == -1,
            },
            j <= dirty@.len(),
            r.deep_view() == dv.take(j as int).filter(p),
        decreases dirty@.len() - j,
    {
        proof {
            crate::seqs::lemma_filter_step(dv, p, j as int);
            assert(dv[j as int] == dirty@[j as int]@);
            let _ = hs@[j as int];
        }
        let mine = match hs[j] {
            Some(k) => k == i,
            None => false,
        };
        if mine {
            let c = chars_of(dirty[j].as_str());
            proof {
                assert(c.deep_view() =~= c@);
            }
            let ghost before = r.deep_view();
            r.push(c);
            proof {
                assert(r.deep_view() =~= before.push(c@));
            }
        }
        j += 1;
    }
    proof {
        assert(dv.take(dirty@.len() as int) =~= dv);
    }
    r
}

fn dirty_here(others: &Vec<Claim>, hs: &Vec<Option<usize>>, dirty: &[String], sess: &str) -> (r: Vec<Vec<char>>)
    requires
        hs@.len() == dirty@.len(),
        forall|j: int| 0 <= j < dirty@.len() ==> match #[trigger] hs@[j] {
            Some(k) => holder(claims_view(others@), dirty@[j]@) == k as int,
            None => holder(claims_view(others@), dirty@[j]@) == -1,
        },
    ensures
        r.deep_view() == dirty_of(claims_view(others@), dirty@.map_values(|s: String| s@), sess@),
{
    let ghost cv = claims_view(others@);
    let ghost dv = dirty@.map_values(|s: String| s@);
    let mut j: usize = 0;
    while j < others.len()
        invariant
            cv == claims_view(others@),
            dv == dirty@.map_values(|s: String| s@),
            hs@.len() == dirty@.len(),
            forall|t: int| 0 <= t < dirty@.len() ==> match #[trigger] hs@[t] {
                Some(k) => holder(claims_view(others@), dirty@[t]@) == k as int,
                None => holder(claims_view(others@), dirty@[t]@) == -1,
            },
            j <= others@.len(),
            forall|t: int| 0 <= t < j ==> !(cv[t].session == sess@ && owned_by(cv, dv, t).len() > 0),
        decreases others@.len() - j,
    {
        let o = owned(hs, dirty, j, others);
        if str_eq(others[j].session.as_str(), sess) && o.len() > 0 {
            proof {
                assert(cv[j as int].session == sess@);
                assert(owned_by(cv, dv, j as int).len() > 0);
                let k = choose|k: int|
                    0 <= k < cv.len() && cv[k].session == sess@ && owned_by(cv, dv, k).len() > 0 && forall|t: int|
                        0 <= t < k ==> !(cv[t].session == sess@ && owned_by(cv, dv, t).len() > 0);
                if k != j {
                    if k < j {
                        assert(!(cv[k].session == sess@ && owned_by(cv, dv, k).len() > 0));
                    } else {
                        assert(!(cv[j as int].session == sess@ && owned_by(cv, dv, j as int).len() > 0));
                    }
                }
            }
            return o;
        }
        proof {
            assert(cv[j as int] == others@[j as int].view());
        }
        j += 1;
    }
    let r: Vec<Vec<char>> = Vec::new();
    proof {
        assert(r.deep_view() =~= Seq::<Seq<char>>::empty());
    }
    r
}

fn file_keys(files: &Vec<(String, String)>) -> (r: Vec<&str>)
    ensures
        strs_view(r@) == keys_of(pairs_view(files@)),
{
    let mut r: Vec<&str> = Vec::new();
    let mut i: usize = 0;
    while i < files.len()
        invariant
            i <= files@.len(),
            strs_view(r@) =~= keys_of(pairs_view(files@)).take(i as int),
        decreases files@.len() - i,
    {
        r.push(files[i].0.as_str());
        proof {
            assert(keys_of(pairs_view(files@)).take(i + 1) =~= keys_of(pairs_view(files@)).take(i as int).push(
                files@[i as int].0@,
            ));
        }
        i += 1;
    }
    proof {
        assert(keys_of(pairs_view(files@)).take(files@.len() as int) =~= keys_of(pairs_view(files@)));
    }
    r
}

fn strings_chars(v: &Vec<String>) -> (r: Vec<Vec<char>>)
    ensures
        r.deep_view() == v.deep_view(),
{
    let mut r: Vec<Vec<char>> = Vec::new();
    let mut i: usize = 0;
    while i < v.len()
        invariant
            i <= v@.len(),
            r.deep_view() =~= v.deep_view().take(i as int),
        decreases v@.len() - i,
    {
        let c = chars_of(v[i].as_str());
        proof {
            assert(c.deep_view() =~= c@);
        }
        let ghost before = r.deep_view();
        r.push(c);
        proof {
            assert(r.deep_view() =~= before.push(c@));
            assert(v.deep_view().take(i + 1) =~= v.deep_view().take(i as int).push(v@[i as int]@));
        }
        i += 1;
    }
    proof {
        assert(v.deep_view().take(v@.len() as int) =~= v.deep_view());
    }
    r
}

#[verifier::rlimit(40)]
fn claim_line_exec(c: &Claim, others: &Vec<Claim>, hs: &Vec<Option<usize>>, dirty: &[String], now: u64) -> (r: Option<Vec<char>>)
    requires
        cuts_at(c.session@, 8),
        hs@.len() == dirty@.len(),
        forall|j: int| 0 <= j < dirty@.len() ==> match #[trigger] hs@[j] {
            Some(k) => holder(claims_view(others@), dirty@[j]@) == k as int,
            None => holder(claims_view(others@), dirty@[j]@) == -1,
        },
    ensures
        match r {
            Some(l) => claim_line(c.view(), claims_view(others@), dirty@.map_values(|s: String| s@), now as nat)
                == Some(l@),
            None => claim_line(c.view(), claims_view(others@), dirty@.map_values(|s: String| s@), now as nat)
                is None,
        },
{
    let dh = dirty_here(others, hs, dirty, c.session.as_str());
    let active = c.is_live(now);
    if !active && dh.len() == 0 {
        return None;
    }
    let when = when_exec(c.updated.as_str(), now);
    let name = c.name();
    let mut line = chars_of("- ");
    push_text(&mut line, name.as_str());
    if active {
        push_text(&mut line, ", last edit ");
        push_text(&mut line, when.as_str());
        push_text(&mut line, ": editing ");
        let ks = file_keys(&c.files);
        let ar = areas(&ks);
        let arc = strings_chars(&ar);
        let l = listed(&arc, CLAIM_AREAS_SHOWN);
        push_all(&mut line, &l);
    } else {
        push_text(&mut line, ", ended ");
        push_text(&mut line, when.as_str());
    }
    let ghost head = line@;
    if dh.len() > 0 {
        push_text(&mut line, "; uncommitted: ");
        let l = listed(&dh, CLAIM_DIRTY_SHOWN);
        push_all(&mut line, &l);
    }
    proof {
        let spec = claim_line(c.view(), claims_view(others@), dirty@.map_values(|s: String| s@), now as nat);
        assert(spec == Some(line@));
    }
    Some(line)
}

fn pack(lines: &Vec<Vec<char>>) -> (r: Vec<char>)
    ensures
        r@ == packed(lines.deep_view(), "## Other sessions in this checkout\n"@),
{
    let mut out = chars_of("## Other sessions in this checkout\n");
    let mut i: usize = 0;
    proof {
        assert(lines.deep_view().skip(0) =~= lines.deep_view());
        reveal_strlit("\n");
    }
    while i < lines.len()
        invariant
            i <= lines@.len(),
            "\n"@ == seq!['\n'],
            packed(lines.deep_view().skip(i as int), out@) == packed(lines.deep_view(), "## Other sessions in this checkout\n"@),
        decreases lines@.len() - i,
    {
        let used = byte_len(&out);
        let n = byte_len(&lines[i]);
        let ol = out.len();
        let ll = lines[i].len();
        proof {
            assert(used <= 4 * (ol as int));
            assert(n <= 4 * (ll as int));
            let rest = lines.deep_view().skip(i as int);
            assert(rest[0] == lines@[i as int]@);
            assert(rest.drop_first() =~= lines.deep_view().skip(i + 1));
        }
        if used + n > CLAIM_BRIEF_CHARS as u128 {
            push_text(&mut out, "- …\n");
            return out;
        }
        let ghost before = out@;
        push_all(&mut out, &lines[i]);
        out.push('\n');
        proof {
            assert(out@ =~= before + lines@[i as int]@ + "\n"@);
        }
        i += 1;
    }
    proof {
        assert(lines.deep_view().skip(lines@.len() as int) =~= Seq::<Seq<char>>::empty());
    }
    out
}


pub open spec fn opt_view(o: Option<&str>) -> Option<Seq<char>> {
    match o {
        Some(m) => Some(m@),
        None => None,
    }
}

/// The brief's section on the other sessions in this checkout: what each
/// live one is editing and which uncommitted files are whose. Empty when
/// there is nothing to say.
pub fn section(claims: &[Claim], dirty: &[String], me: Option<&str>, now: u64) -> (out: String)
    requires
        nameable(claims_view(claims@)),
    ensures
        out@ == section_spec(claims_view(claims@), dirty@.map_values(|s: String| s@), opt_view(me), now as nat),
{
    let ghost cv = claims_view(claims@);
    let ghost p = not_me(opt_view(me));
    let mut others: Vec<Claim> = Vec::new();
    let mut i: usize = 0;
    proof {
        assert(cv.take(0).filter(p) =~= Seq::<ClaimV>::empty()) by {
            reveal(Seq::filter);
        }
    }
    while i < claims.len()
        invariant
            cv == claims_view(claims@),
            p == not_me(opt_view(me)),
            nameable(cv),
            i <= claims@.len(),
            claims_view(others@) == cv.take(i as int).filter(p),
            nameable(claims_view(others@)),
        decreases claims@.len() - i,
    {
        proof {
            crate::seqs::lemma_filter_step(cv, p, i as int);
            assert(cv[i as int] == claims@[i as int].view());
        }
        let keep = match me {
            Some(m) => !str_eq(claims[i].session.as_str(), m),
            None => true,
        };
        if keep {
            let c = claims[i].copy();
            let ghost before = others@;
            others.push(c);
            proof {
                assert(claims_view(others@) =~= claims_view(before).push(c.view()));
                assert(nameable(claims_view(others@))) by {
                    assert forall|k: int| 0 <= k < claims_view(others@).len() implies cuts_at(#[trigger] claims_view(others@)[k].session, 8) by {
                        if k == claims_view(before).len() {
                            assert(cuts_at(cv[i as int].session, 8));
                        } else {
                            assert(claims_view(others@)[k] == claims_view(before)[k]);
                        }
                    }
                }
            }
        }
        i += 1;
    }
    proof {
        assert(cv.take(claims@.len() as int) =~= cv);
    }
    let ghost ov = claims_view(others@);
    let ghost dv = dirty@.map_values(|s: String| s@);
    let hs = holders(&others, dirty);
    let mut lines: Vec<Vec<char>> = Vec::new();
    let mut j: usize = 0;
    proof {
        assert(ov.take(0) =~= Seq::<ClaimV>::empty());
        assert(lines.deep_view() =~= Seq::<Seq<char>>::empty());
    }
    while j < others.len()
        invariant
            ov == claims_view(others@),
            dv == dirty@.map_values(|s: String| s@),
            nameable(ov),
            hs@.len() == dirty@.len(),
            forall|t: int| 0 <= t < dirty@.len() ==> match #[trigger] hs@[t] {
                Some(k) => holder(claims_view(others@), dirty@[t]@) == k as int,
                None => holder(claims_view(others@), dirty@[t]@) == -1,
            },
            j <= others@.len(),
            lines.deep_view() == claim_lines(ov.take(j as int), ov, dv, now as nat),
        decreases others@.len() - j,
    {
        proof {
            assert(ov.take(j + 1).drop_last() =~= ov.take(j as int));
            assert(ov.take(j + 1).last() == others@[j as int].view());
            assert(cuts_at(ov[j as int].session, 8));
        }
        match claim_line_exec(&others[j], &others, &hs, dirty, now) {
            Some(l) => {
                proof {
                    assert(l.deep_view() =~= l@);
                }
                let ghost before = lines.deep_view();
                lines.push(l);
                proof {
                    assert(lines.deep_view() =~= before.push(l@));
                }
            },
            None => {},
        }
        j += 1;
    }
    proof {
        assert(ov.take(others@.len() as int) =~= ov);
    }
    if lines.len() == 0 {
        return String::new();
    }
    let mut out = pack(&lines);
    push_text(&mut out, "_Leave their paths and uncommitted files alone, or work in a worktree._\n\n");
    string_of(&out)
}

} // verus!
