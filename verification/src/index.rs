//! The section index: each file's outline (Markdown headings or top-level
//! code blocks, with line ranges), its token estimate, and which sections
//! mention which ids (`T-253`, `ADR-12`). Built once per content and kept
//! under `<local>/index/`, one small file per indexed path: a file whose
//! size and mtime did not change is not read again, and one whose content
//! hash did not change is not parsed again. The read guard and
//! `relay brief <query>` answer from it.
//!
//! The cache files, the file's stamp and its hash are the caller's; what
//! to keep, reuse or rebuild is decided here.

use vstd::prelude::*;

use crate::fmt::{est_tokens, est_tokens_spec};
use crate::outline::{entries_view, of, of_spec, Entry, EntryV};
use crate::pattern::{find_all, is_match, regex_found, regex_matches};
use crate::task_brief::around;
use crate::text::{chars_eq, chars_of, lines, lines_of, string_of, to_uppercase, trim, trim_spec, uppercase};

verus! {

/// Bump when what an index file holds changes shape or meaning.
pub const VERSION: u32 = 1;

pub struct Indexed {
    pub version: u32,
    pub size: u64,
    pub mtime_ms: u64,
    pub hash: String,
    pub tokens: usize,
    pub entries: Vec<Entry>,
    /// An id, upper-cased, and the entries whose own lines mention it;
    /// each id once.
    pub ids: Vec<(String, Vec<usize>)>,
}

pub open spec fn ids_view(v: Seq<(String, Vec<usize>)>) -> Seq<(Seq<char>, Seq<usize>)> {
    v.map_values(|p: (String, Vec<usize>)| (p.0@, p.1@))
}

/// An id as the index keeps them: letters, `-`, digits, maybe one
/// lower-case letter.
pub open spec fn id_pattern() -> Seq<char> {
    "\\b[A-Za-z]{1,8}-\\d{1,6}[a-z]?\\b"@
}

/// The ids a line names, as found; none when the pattern finds none.
pub open spec fn ids_in(line: Seq<char>) -> Seq<Seq<char>> {
    match regex_found(id_pattern(), line) {
        Some(v) => v,
        None => seq![],
    }
}

/// Where `key` sits in `ids`, or -1.
pub open spec fn slot(ids: Seq<(Seq<char>, Seq<usize>)>, key: Seq<char>) -> int
    decreases ids.len(),
{
    if ids.len() == 0 {
        -1
    } else if ids.last().0 == key {
        ids.len() - 1
    } else {
        slot(ids.drop_last(), key)
    }
}

/// Entry `owner` noted under `key`, unless it is the last one noted.
pub open spec fn note(ids: Seq<(Seq<char>, Seq<usize>)>, key: Seq<char>, owner: usize) -> Seq<(Seq<char>, Seq<usize>)> {
    let k = slot(ids, key);
    if k < 0 {
        ids.push((key, seq![owner]))
    } else {
        let list = ids[k].1;
        if list.len() > 0 && list.last() == owner {
            ids
        } else {
            ids.update(k, (key, list.push(owner)))
        }
    }
}

/// The first `m` ids of one line noted for `owner`.
pub open spec fn note_all(ids: Seq<(Seq<char>, Seq<usize>)>, found: Seq<Seq<char>>, owner: usize, m: int) -> Seq<
    (Seq<char>, Seq<usize>),
>
    decreases m,
{
    if m <= 0 {
        ids
    } else {
        note(note_all(ids, found, owner, m - 1), uppercase(found[m - 1]), owner)
    }
}

/// The ids after the first `k` lines: each line belongs to the deepest
/// entry around it.
pub open spec fn ids_after(ls: Seq<Seq<char>>, es: Seq<EntryV>, k: int) -> Seq<(Seq<char>, Seq<usize>)>
    decreases k,
{
    if k <= 0 {
        seq![]
    } else {
        let prev = ids_after(ls, es, k - 1);
        let owner = around(es, k, es.len() as int);
        if owner < 0 {
            prev
        } else {
            let found = ids_in(ls[k - 1]);
            note_all(prev, found, owner as usize, found.len() as int)
        }
    }
}

pub open spec fn ids_spec(text: Seq<char>, es: Seq<EntryV>) -> Seq<(Seq<char>, Seq<usize>)> {
    let ls = lines_of(text);
    ids_after(ls, es, ls.len() as int)
}

/// Keys appear once.
pub open spec fn unique_keys(ids: Seq<(Seq<char>, Seq<usize>)>) -> bool {
    forall|i: int, j: int| 0 <= i < j < ids.len() ==> (#[trigger] ids[i]).0 != (#[trigger] ids[j]).0
}

proof fn lemma_slot(ids: Seq<(Seq<char>, Seq<usize>)>, key: Seq<char>)
    requires
        unique_keys(ids),
    ensures
        -1 <= slot(ids, key) < ids.len(),
        slot(ids, key) >= 0 ==> ids[slot(ids, key)].0 == key,
        slot(ids, key) < 0 ==> forall|i: int| 0 <= i < ids.len() ==> (#[trigger] ids[i]).0 != key,
        forall|i: int| 0 <= i < ids.len() && (#[trigger] ids[i]).0 == key ==> i == slot(ids, key),
    decreases ids.len(),
{
    if ids.len() > 0 {
        let d = ids.drop_last();
        assert forall|i: int| 0 <= i < ids.len() - 1 implies #[trigger] d[i] == ids[i] by {}
        assert(unique_keys(d)) by {
            assert forall|i: int, j: int| 0 <= i < j < d.len() implies (#[trigger] d[i]).0 != (#[trigger] d[j]).0 by {
                assert(d[i] == ids[i] && d[j] == ids[j]);
            }
        }
        lemma_slot(d, key);
        let n = ids.len() - 1;
        if ids.last().0 == key {
            assert forall|i: int| 0 <= i < ids.len() && (#[trigger] ids[i]).0 == key implies i == slot(ids, key) by {
                if i < n {
                    assert(ids[i].0 != ids[n].0);
                }
            }
        } else {
            assert forall|i: int| 0 <= i < ids.len() && (#[trigger] ids[i]).0 == key implies i == slot(ids, key) by {
                assert(i < n);
                assert(d[i].0 == key);
            }
            if slot(ids, key) < 0 {
                assert forall|i: int| 0 <= i < ids.len() implies (#[trigger] ids[i]).0 != key by {
                    if i < n {
                        assert(d[i].0 != key);
                    }
                }
            }
        }
    }
}

proof fn lemma_note_unique(ids: Seq<(Seq<char>, Seq<usize>)>, key: Seq<char>, owner: usize)
    requires
        unique_keys(ids),
    ensures
        unique_keys(note(ids, key, owner)),
{
    lemma_slot(ids, key);
}

fn slot_exec(ids: &Vec<(String, Vec<usize>)>, key: &[char]) -> (r: Option<usize>)
    requires
        unique_keys(ids_view(ids@)),
    ensures
        match r {
            Some(k) => slot(ids_view(ids@), key@) == k as int,
            None => slot(ids_view(ids@), key@) == -1,
        },
{
    let ghost iv = ids_view(ids@);
    proof {
        lemma_slot(iv, key@);
    }
    let mut i: usize = 0;
    while i < ids.len()
        invariant
            iv == ids_view(ids@),
            unique_keys(iv),
            -1 <= slot(iv, key@) < iv.len(),
            slot(iv, key@) >= 0 ==> iv[slot(iv, key@)].0 == key@,
            forall|k: int| 0 <= k < iv.len() && (#[trigger] iv[k]).0 == key@ ==> k == slot(iv, key@),
            i <= ids@.len(),
            forall|k: int| 0 <= k < i ==> (#[trigger] iv[k]).0 != key@,
        decreases ids@.len() - i,
    {
        proof {
            assert(iv[i as int] == (ids@[i as int].0@, ids@[i as int].1@));
        }
        if chars_eq(&chars_of(ids[i].0.as_str()), key) {
            return Some(i);
        }
        i += 1;
    }
    None
}

fn note_exec(ids: &mut Vec<(String, Vec<usize>)>, key: &[char], owner: usize)
    requires
        unique_keys(ids_view(old(ids)@)),
    ensures
        ids_view(final(ids)@) == note(ids_view(old(ids)@), key@, owner),
        unique_keys(ids_view(final(ids)@)),
{
    let ghost iv = ids_view(ids@);
    proof {
        lemma_note_unique(iv, key@, owner);
        lemma_slot(iv, key@);
    }
    match slot_exec(ids, key) {
        None => {
            let s = string_of(key);
            let v = vec![owner];
            proof {
                assert(v@ =~= seq![owner]);
            }
            ids.push((s, v));
            proof {
                assert(ids_view(ids@) =~= iv.push((key@, seq![owner])));
            }
        },
        Some(k) => {
            let n = ids[k].1.len();
            if n > 0 && ids[k].1[n - 1] == owner {
                return;
            }
            let mut list = ids[k].1.clone();
            list.push(owner);
            let name = ids[k].0.clone();
            let ghost old_list = iv[k as int].1;
            proof {
                assert(list@ == old_list.push(owner));
                assert(name@ == key@);
            }
            ids.set(k, (name, list));
            proof {
                assert(ids_view(ids@) =~= iv.update(k as int, (key@, old_list.push(owner))));
            }
        },
    }
}

fn ids_by_entry(text: &str, entries: &Vec<Entry>) -> (r: Vec<(String, Vec<usize>)>)
    ensures
        ids_view(r@) == ids_spec(text@, entries_view(entries@)),
        unique_keys(ids_view(r@)),
{
    let ls = lines(&chars_of(text));
    let ghost lv = ls.deep_view();
    let ghost ev = entries_view(entries@);
    let mut ids: Vec<(String, Vec<usize>)> = Vec::new();
    let mut i: usize = 0;
    proof {
        assert(ids_view(ids@) =~= Seq::<(Seq<char>, Seq<usize>)>::empty());
    }
    while i < ls.len()
        invariant
            lv == ls.deep_view(),
            lv == lines_of(text@),
            ev == entries_view(entries@),
            i <= ls@.len(),
            ids_view(ids@) == ids_after(lv, ev, i as int),
            unique_keys(ids_view(ids@)),
        decreases ls@.len() - i,
    {
        let n = i + 1;
        let mut owner: Option<usize> = None;
        let mut k: usize = 0;
        while k < entries.len()
            invariant
                ev == entries_view(entries@),
                k <= entries@.len(),
                match owner {
                    Some(d) => around(ev, n as int, k as int) == d as int && d < k,
                    None => around(ev, n as int, k as int) == -1,
                },
            decreases entries@.len() - k,
        {
            let e = &entries[k];
            proof {
                assert(ev[k as int] == e.view());
                match owner {
                    Some(d) => {
                        assert(ev[d as int] == entries@[d as int].view());
                    },
                    None => {},
                }
            }
            if e.start <= n && n <= e.end {
                let take = match owner {
                    Some(d) => e.depth >= entries[d].depth,
                    None => true,
                };
                if take {
                    owner = Some(k);
                }
            }
            k += 1;
        }
        match owner {
            None => {},
            Some(o) => {
                let line = string_of(&ls[i]);
                proof {
                    assert(lv[i as int] == line@);
                }
                let found = match find_all("\\b[A-Za-z]{1,8}-\\d{1,6}[a-z]?\\b", line.as_str()) {
                    Some(v) => v,
                    None => Vec::new(),
                };
                let ghost fv = found.deep_view();
                let ghost start = ids_view(ids@);
                proof {
                    assert(fv == ids_in(line@)) by {
                        if regex_found(id_pattern(), line@) is None {
                            assert(fv =~= Seq::<Seq<char>>::empty());
                        }
                    }
                }
                let mut m: usize = 0;
                while m < found.len()
                    invariant
                        fv == found.deep_view(),
                        m <= found@.len(),
                        ids_view(ids@) == note_all(start, fv, o, m as int),
                        unique_keys(ids_view(ids@)),
                    decreases found@.len() - m,
                {
                    let up = to_uppercase(found[m].as_str());
                    proof {
                        assert(fv[m as int] == found@[m as int]@);
                    }
                    note_exec(&mut ids, &chars_of(up.as_str()), o);
                    m += 1;
                }
            },
        }
        i += 1;
    }
    ids
}

/// The index of a text: its outline, its token estimate and its ids.
pub open spec fn build_spec(text: Seq<char>, markdown: bool) -> (Seq<EntryV>, nat, Seq<(Seq<char>, Seq<usize>)>) {
    let es = of_spec(text, markdown);
    (es, est_tokens_spec(text), ids_spec(text, es))
}

pub fn build(text: &str, markdown: bool, size: u64, mtime_ms: u64, hash: String) -> (r: Indexed)
    ensures
        (entries_view(r.entries@), r.tokens as nat, ids_view(r.ids@)) == build_spec(text@, markdown),
        r.version == VERSION,
        r.size == size,
        r.mtime_ms == mtime_ms,
        r.hash@ == hash@,
{
    let entries = of(text, markdown);
    let ids = ids_by_entry(text, &entries);
    Indexed { version: VERSION, size, mtime_ms, hash, tokens: est_tokens(text), entries, ids }
}

/// A cached index is used as it is when its version is current and the
/// file's size and mtime did not change.
pub fn reusable(cached: &Indexed, size: u64, mtime_ms: u64) -> (r: bool)
    ensures
        r == (cached.version == VERSION && cached.size == size && cached.mtime_ms == mtime_ms),
{
    cached.version == VERSION && cached.size == size && cached.mtime_ms == mtime_ms
}

/// The index of a file that was read again: the cached one with the new
/// stamp when the content hash did not change (touched, not changed),
/// else built from the text.
pub fn refresh(cached: Option<Indexed>, text: &str, markdown: bool, size: u64, mtime_ms: u64, hash: String) -> (r:
    Indexed)
    ensures
        match cached {
            Some(c) if c.version == VERSION && c.hash@ == hash@ => r.entries@ == c.entries@ && r.ids@ == c.ids@
                && r.tokens == c.tokens && r.hash@ == hash@ && r.version == VERSION,
            _ => (entries_view(r.entries@), r.tokens as nat, ids_view(r.ids@)) == build_spec(text@, markdown)
                && r.hash@ == hash@ && r.version == VERSION,
        },
        r.size == size,
        r.mtime_ms == mtime_ms,
{
    match cached {
        Some(c) => {
            if c.version == VERSION && crate::text::str_eq(c.hash.as_str(), hash.as_str()) {
                Indexed { size, mtime_ms, ..c }
            } else {
                build(text, markdown, size, mtime_ms, hash)
            }
        },
        None => build(text, markdown, size, mtime_ms, hash),
    }
}

pub open spec fn id_query() -> Seq<char> {
    "^[A-Za-z]{1,8}-\\d{1,6}[a-z]?$"@
}

/// Whether `query` is a single id the index keeps (`T-253`).
pub open spec fn is_id_spec(query: Seq<char>) -> bool {
    regex_matches(id_query(), trim_spec(query)) == Some(true)
}

pub fn is_id(query: &str) -> (r: bool)
    ensures
        r == is_id_spec(query@),
{
    let t = string_of(&trim(&chars_of(query)));
    match is_match("^[A-Za-z]{1,8}-\\d{1,6}[a-z]?$", t.as_str()) {
        Some(b) => b,
        None => false,
    }
}

impl Indexed {
    /// The entries whose own lines mention `id` (upper case).
    pub fn entries_for(&self, id: &str) -> (r: Option<Vec<usize>>)
        requires
            unique_keys(ids_view(self.ids@)),
        ensures
            match r {
                Some(v) => slot(ids_view(self.ids@), id@) >= 0 && ids_view(self.ids@)[slot(ids_view(self.ids@), id@)].1
                    == v@,
                None => slot(ids_view(self.ids@), id@) == -1,
            },
    {
        match slot_exec(&self.ids, &chars_of(id)) {
            Some(k) => {
                proof {
                    lemma_slot(ids_view(self.ids@), id@);
                }
                Some(self.ids[k].1.clone())
            },
            None => None,
        }
    }
}

} // verus!
