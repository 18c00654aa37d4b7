//! The files a task will likely touch, before anyone opens them: the files
//! changed by commits whose message names the task, and the files edited
//! in recent sessions' turns whose prompt named it. From git history and the
//! spool; no model.

use vstd::prelude::*;

use crate::fmt::{count, count_spec, push_all, push_text};
use crate::limits::{TASK_FILES, TASK_SESSIONS_READ};
use crate::order::{num_order, order_by_num, order_by_text, text_order};
use crate::paths::{rel_spec, Paths};
use crate::spool::Event;
use crate::strset::{insert_str, sorted_strs};
use crate::task_brief::{mentions, mentions_spec};
use crate::text::{chars_of, has_prefix, str_eq, str_starts_with, string_of};
use crate::usage::{is_edit, is_edit_spec};

verus! {

#[derive(Debug, Clone, PartialEq, Eq)]
pub struct Likely {
    pub file: String,
    /// Commits naming the task that changed it.
    pub commits: usize,
    /// Sessions that edited it in a turn asked about the task.
    pub sessions: usize,
}

pub struct LikelyV {
    pub file: Seq<char>,
    pub commits: nat,
    pub sessions: nat,
}

impl Likely {
    pub open spec fn view(&self) -> LikelyV {
        LikelyV { file: self.file@, commits: self.commits as nat, sessions: self.sessions as nat }
    }
}

/// The file and why: `src/pay.rs · 2 commits, 1 session`.
pub open spec fn likely_line(l: LikelyV) -> Seq<char> {
    let c = count_spec(l.commits, "commit"@);
    let s = count_spec(l.sessions, "session"@);
    l.file + " · "@ + if l.commits > 0 && l.sessions > 0 {
        c + ", "@ + s
    } else if l.commits > 0 {
        c
    } else if l.sessions > 0 {
        s
    } else {
        seq![]
    }
}


/// A file's line names the file, then its evidence: right after the file
/// the commits when there are any, at the end the sessions when there
/// are any, and nothing more when there is neither.
pub proof fn law_likely_line_shows_evidence(l: LikelyV)
    ensures
        ({
            let line = likely_line(l);
            let head = l.file + " · "@;
            let c = count_spec(l.commits, "commit"@);
            let s = count_spec(l.sessions, "session"@);
            &&& line.len() >= head.len()
            &&& line.take(head.len() as int) == head
            &&& (l.commits > 0 ==> line.len() >= head.len() + c.len() && line.subrange(
                head.len() as int,
                (head.len() + c.len()) as int,
            ) == c)
            &&& (l.sessions > 0 ==> line.len() >= head.len() + s.len() && line.skip(line.len() - s.len()) == s)
            &&& (l.commits == 0 && l.sessions == 0 ==> line == head)
        }),
{
    let line = likely_line(l);
    let head = l.file + " · "@;
    let c = count_spec(l.commits, "commit"@);
    let s = count_spec(l.sessions, "session"@);
    if l.commits > 0 && l.sessions > 0 {
        assert(line == head + (c + ", "@ + s));
        assert(line.take(head.len() as int) =~= head);
        assert(line.subrange(head.len() as int, (head.len() + c.len()) as int) =~= c);
        assert(line.skip(line.len() - s.len()) =~= s);
    } else if l.commits > 0 {
        assert(line == head + c);
        assert(line.take(head.len() as int) =~= head);
        assert(line.subrange(head.len() as int, (head.len() + c.len()) as int) =~= c);
    } else if l.sessions > 0 {
        assert(line == head + s);
        assert(line.take(head.len() as int) =~= head);
        assert(line.skip(line.len() - s.len()) =~= s);
    } else {
        assert(line =~= head);
        assert(line.take(head.len() as int) =~= head);
    }
}

// ---------------------------------------------------------------------------
// Evidence
// ---------------------------------------------------------------------------

/// The file an edit event names, relative to the repo root; none for a
/// file outside the repo (another checkout, a temp dir).
pub open spec fn edited_file(e: Event, root: Seq<char>) -> Option<Seq<char>> {
    match e.data.at("file"@).str_of() {
        Some(f) => {
            let r = rel_spec(root, f);
            if has_prefix(r, "/"@) || has_prefix(r, ".."@) {
                None
            } else {
                Some(r)
            }
        },
        None => None,
    }
}

/// After the first `n` events of a session: whether the last prompt named
/// the query, and the files edited in turns whose prompt did.
pub open spec fn scan_edits(evs: Seq<Event>, root: Seq<char>, query: Seq<char>, n: int) -> (bool, Set<Seq<char>>)
    decreases n,
{
    if n <= 0 {
        (false, Set::empty())
    } else {
        let (asked, set) = scan_edits(evs, root, query, n - 1);
        let e = evs[n - 1];
        if e.event@ == "prompt"@ {
            (
                match e.data.at("text"@).str_of() {
                    Some(t) => mentions_spec(t, query),
                    None => false,
                },
                set,
            )
        } else if e.event@ == "tool"@ && asked && match e.data.at("tool"@).str_of() {
            Some(t) => is_edit_spec(t),
            None => false,
        } {
            (
                asked,
                match edited_file(e, root) {
                    Some(f) => set.insert(f),
                    None => set,
                },
            )
        } else {
            (asked, set)
        }
    }
}

pub open spec fn edited_in(evs: Seq<Event>, root: Seq<char>, query: Seq<char>) -> Set<Seq<char>> {
    scan_edits(evs, root, query, evs.len() as int).1
}

/// How many of the first `n` sessions edited `f` in a turn asked about
/// the query.
pub open spec fn sessions_with(ss: Seq<Vec<Event>>, root: Seq<char>, query: Seq<char>, f: Seq<char>, n: int) -> nat
    decreases n,
{
    if n <= 0 {
        0
    } else {
        sessions_with(ss, root, query, f, n - 1) + if edited_in(ss[n - 1]@, root, query).contains(f) {
            1nat
        } else {
            0nat
        }
    }
}

/// The sessions read: the first `TASK_SESSIONS_READ`.
pub open spec fn sessions_read(n: nat) -> int {
    if n < TASK_SESSIONS_READ {
        n as int
    } else {
        TASK_SESSIONS_READ as int
    }
}

/// The files changed by the commits whose message names the query, once
/// per commit that lists them.
pub open spec fn commit_files(cs: Seq<(String, Vec<String>)>, query: Seq<char>) -> Seq<Seq<char>>
    decreases cs.len(),
{
    if cs.len() == 0 {
        seq![]
    } else {
        commit_files(cs.drop_last(), query) + if mentions_spec(cs.last().0@, query) {
            cs.last().1.deep_view()
        } else {
            seq![]
        }
    }
}

pub open spec fn count_of(fs: Seq<Seq<char>>, f: Seq<char>) -> nat {
    fs.filter(|x: Seq<char>| x == f).len()
}

/// Each file's evidence: commits naming the task that changed it, and
/// sessions that edited it in a turn asked about the task.
pub open spec fn evidence(
    cs: Seq<(String, Vec<String>)>,
    ss: Seq<Vec<Event>>,
    root: Seq<char>,
    query: Seq<char>,
    f: Seq<char>,
) -> (nat, nat) {
    (count_of(commit_files(cs, query), f), sessions_with(ss, root, query, f, sessions_read(ss.len())))
}

pub open spec fn likely_view(v: Seq<Likely>) -> Seq<LikelyV> {
    v.map_values(|l: Likely| l.view())
}

/// No file twice.
pub open spec fn unique_files(v: Seq<LikelyV>) -> bool {
    forall|i: int, j: int| 0 <= i < j < v.len() ==> v[i].file != v[j].file
}

pub open spec fn has_file(v: Seq<LikelyV>, f: Seq<char>) -> bool {
    exists|i: int| 0 <= i < v.len() && v[i].file == f
}

pub open spec fn total_changed(cs: Seq<(String, Vec<String>)>) -> nat
    decreases cs.len(),
{
    if cs.len() == 0 {
        0
    } else {
        total_changed(cs.drop_last()) + cs.last().1@.len()
    }
}

proof fn lemma_commit_files_len(cs: Seq<(String, Vec<String>)>, query: Seq<char>)
    ensures
        commit_files(cs, query).len() <= total_changed(cs),
    decreases cs.len(),
{
    if cs.len() > 0 {
        lemma_commit_files_len(cs.drop_last(), query);
    }
}

pub proof fn lemma_count_push(fs: Seq<Seq<char>>, x: Seq<char>, f: Seq<char>)
    ensures
        count_of(fs.push(x), f) == count_of(fs, f) + if x == f {
            1nat
        } else {
            0nat
        },
{
    reveal(Seq::filter);
    assert(fs.push(x).drop_last() =~= fs);
}

proof fn lemma_count_le(fs: Seq<Seq<char>>, f: Seq<char>)
    ensures
        count_of(fs, f) <= fs.len(),
{
    fs.lemma_filter_len(|x: Seq<char>| x == f);
}

/// Adds `dc` commits and `ds` sessions to `f`'s entry, making one when
/// there is none.
fn bump(v: &mut Vec<Likely>, f: &str, dc: usize, ds: usize)
    requires
        unique_files(likely_view(old(v)@)),
        forall|i: int| 0 <= i < old(v)@.len() && old(v)@[i].file@ == f@ ==> old(v)@[i].commits + dc <= usize::MAX
            && old(v)@[i].sessions + ds <= usize::MAX,
    ensures
        unique_files(likely_view(final(v)@)),
        forall|g: Seq<char>| has_file(likely_view(final(v)@), g) <==> (has_file(likely_view(old(v)@), g) || g == f@),
        forall|i: int|
            0 <= i < final(v)@.len() ==> {
                let l = #[trigger] final(v)@[i];
                if l.file@ == f@ {
                    (l.commits as int, l.sessions as int) == (match find(likely_view(old(v)@), f@) {
                        Some(k) => (old(v)@[k].commits + dc, old(v)@[k].sessions + ds),
                        None => (dc as int, ds as int),
                    })
                } else {
                    exists|k: int| 0 <= k < old(v)@.len() && old(v)@[k] == l
                }
            },
{
    let ghost w = likely_view(v@);
    let mut i: usize = 0;
    while i < v.len()
        invariant
            w == likely_view(v@),
            v@ == old(v)@,
            unique_files(w),
            forall|k: int| 0 <= k < old(v)@.len() && old(v)@[k].file@ == f@ ==> old(v)@[k].commits + dc <= usize::MAX
                && old(v)@[k].sessions + ds <= usize::MAX,
            i <= v@.len(),
            forall|k: int| 0 <= k < i ==> v@[k].file@ != f@,
        decreases v@.len() - i,
    {
        if str_eq(v[i].file.as_str(), f) {
            proof {
                assert(old(v)@[i as int].file@ == f@);
            }
            let old_l = Likely { file: v[i].file.clone(), commits: v[i].commits, sessions: v[i].sessions };
            let l = Likely { file: old_l.file, commits: old_l.commits + dc, sessions: old_l.sessions + ds };
            let ghost before = v@;
            v.set(i, l);
            proof {
                assert(find(w, f@) == Some(i as int)) by {
                    lemma_find(w, f@, i as int);
                }
                assert forall|g: Seq<char>| has_file(likely_view(v@), g) <==> (has_file(w, g) || g == f@) by {
                    if has_file(likely_view(v@), g) {
                        let k = choose|k: int| 0 <= k < likely_view(v@).len() && likely_view(v@)[k].file == g;
                        if k != i {
                            assert(w[k].file == g);
                        }
                    }
                    if has_file(w, g) {
                        let k = choose|k: int| 0 <= k < w.len() && w[k].file == g;
                        assert(likely_view(v@)[k].file == g);
                    }
                    if g == f@ {
                        assert(likely_view(v@)[i as int].file == g);
                    }
                }
                assert forall|a: int, b: int| 0 <= a < b < likely_view(v@).len() implies likely_view(v@)[a].file
                    != likely_view(v@)[b].file by {
                    assert(w[a].file != w[b].file);
                }
                assert forall|k: int| 0 <= k < v@.len() implies {
                    let l = #[trigger] v@[k];
                    if l.file@ == f@ {
                        (l.commits as int, l.sessions as int) == (match find(w, f@) {
                            Some(k) => (before[k].commits + dc, before[k].sessions + ds),
                            None => (dc as int, ds as int),
                        })
                    } else {
                        exists|m: int| 0 <= m < before.len() && before[m] == l
                    }
                } by {
                    if k != i {
                        assert(before[k] == v@[k]);
                        if v@[k].file@ == f@ {
                            assert(w[k].file == w[i as int].file);
                        }
                    }
                }
            }
            return;
        }
        i += 1;
    }
    let ghost before = v@;
    v.push(Likely { file: f.to_string(), commits: dc, sessions: ds });
    proof {
        assert(find(w, f@) is None) by {
            lemma_find_none(w, f@);
        }
        assert forall|a: int, b: int| 0 <= a < b < likely_view(v@).len() implies likely_view(v@)[a].file
            != likely_view(v@)[b].file by {
            if b == before.len() {
                assert(before[a].file@ != f@);
            } else {
                assert(w[a].file != w[b].file);
            }
        }
        assert forall|g: Seq<char>| has_file(likely_view(v@), g) <==> (has_file(w, g) || g == f@) by {
            if has_file(likely_view(v@), g) {
                let k = choose|k: int| 0 <= k < likely_view(v@).len() && likely_view(v@)[k].file == g;
                if k < before.len() {
                    assert(w[k].file == g);
                }
            }
            if has_file(w, g) {
                let k = choose|k: int| 0 <= k < w.len() && w[k].file == g;
                assert(likely_view(v@)[k].file == g);
            }
            if g == f@ {
                assert(likely_view(v@)[before.len() as int].file == g);
            }
        }
        assert forall|k: int| 0 <= k < v@.len() implies {
            let l = #[trigger] v@[k];
            if l.file@ == f@ {
                (l.commits as int, l.sessions as int) == (match find(w, f@) {
                    Some(k) => (before[k].commits + dc, before[k].sessions + ds),
                    None => (dc as int, ds as int),
                })
            } else {
                exists|m: int| 0 <= m < before.len() && before[m] == l
            }
        } by {
            if k < before.len() {
                assert(before[k] == v@[k]);
                assert(v@[k].file@ != f@);
            }
        }
    }
}

/// The first entry for `f`.
pub open spec fn find(v: Seq<LikelyV>, f: Seq<char>) -> Option<int> {
    if has_file(v, f) {
        Some(choose|i: int| 0 <= i < v.len() && v[i].file == f)
    } else {
        None
    }
}

proof fn lemma_find(v: Seq<LikelyV>, f: Seq<char>, i: int)
    requires
        unique_files(v),
        0 <= i < v.len(),
        v[i].file == f,
    ensures
        find(v, f) == Some(i),
{
    assert(has_file(v, f));
    let k = choose|k: int| 0 <= k < v.len() && v[k].file == f;
    if k != i {
        if k < i {
            assert(v[k].file != v[i].file);
        } else {
            assert(v[i].file != v[k].file);
        }
    }
}

proof fn lemma_find_none(v: Seq<LikelyV>, f: Seq<char>)
    requires
        forall|k: int| 0 <= k < v.len() ==> v[k].file != f,
    ensures
        find(v, f) is None,
{
}


/// The files a session edited in turns whose prompt named the query,
/// each once, in ascending order.
fn edited_exec(evs: &[Event], paths: &Paths, query: &str) -> (r: Vec<String>)
    ensures
        sorted_strs(r.deep_view()),
        r.deep_view().to_set() == edited_in(evs@, paths.root@, query@),
{
    let mut asked = false;
    let mut ed: Vec<String> = Vec::new();
    let mut j: usize = 0;
    proof {
        assert(ed.deep_view().to_set() =~= Set::<Seq<char>>::empty());
    }
    while j < evs.len()
        invariant
            j <= evs@.len(),
            sorted_strs(ed.deep_view()),
            (asked, ed.deep_view().to_set()) == scan_edits(evs@, paths.root@, query@, j as int),
        decreases evs@.len() - j,
    {
        let e = &evs[j];
        if str_eq(e.event.as_str(), "prompt") {
            asked = match e.data.str_at("text") {
                Some(t) => mentions(t, query),
                None => false,
            };
        } else if str_eq(e.event.as_str(), "tool") && asked && match e.data.str_at("tool") {
            Some(t) => is_edit(t),
            None => false,
        } {
            match e.data.str_at("file") {
                Some(f) => {
                    let r = paths.rel_file(f);
                    if !str_starts_with(r.as_str(), "/") && !str_starts_with(r.as_str(), "..") {
                        insert_str(&mut ed, r.as_str());
                    }
                },
                None => {},
            }
        }
        j += 1;
    }
    ed
}

/// Each file with its evidence: the commits (message and files changed)
/// and the recent sessions' events, newest first. No file twice; the
/// order carries no meaning.
pub fn candidates(paths: &Paths, query: &str, commits: &[(String, Vec<String>)], sessions: &[Vec<Event>]) -> (r: Vec<
    Likely,
>)
    requires
        total_changed(commits@) <= usize::MAX,
    ensures
        unique_files(likely_view(r@)),
        forall|f: Seq<char>|
            has_file(likely_view(r@), f) <==> ({
                let (c, s) = evidence(commits@, sessions@, paths.root@, query@, f);
                c > 0 || s > 0
            }),
        forall|i: int|
            0 <= i < r@.len() ==> ((#[trigger] r@[i]).commits as nat, r@[i].sessions as nat) == evidence(
                commits@,
                sessions@,
                paths.root@,
                query@,
                r@[i].file@,
            ),
{
    // The files of the commits that name the task.
    let mut cf: Vec<String> = Vec::new();
    let mut i: usize = 0;
    while i < commits.len()
        invariant
            i <= commits@.len(),
            cf.deep_view() == commit_files(commits@.take(i as int), query@),
        decreases commits@.len() - i,
    {
        proof {
            assert(commits@.take(i + 1).drop_last() =~= commits@.take(i as int));
        }
        if mentions(commits[i].0.as_str(), query) {
            let ch = &commits[i].1;
            let ghost start = cf.deep_view();
            let mut k: usize = 0;
            while k < ch.len()
                invariant
                    k <= ch@.len(),
                    cf.deep_view() == start + ch.deep_view().take(k as int),
                decreases ch@.len() - k,
            {
                let ghost before = cf.deep_view();
                cf.push(ch[k].clone());
                proof {
                    assert(cf.deep_view() =~= before.push(ch@[k as int]@));
                    assert(ch.deep_view().take(k + 1) =~= ch.deep_view().take(k as int).push(ch@[k as int]@));
                }
                k += 1;
            }
            proof {
                assert(ch.deep_view().take(ch@.len() as int) =~= ch.deep_view());
            }
        }
        i += 1;
    }
    proof {
        assert(commits@.take(commits@.len() as int) =~= commits@);
        lemma_commit_files_len(commits@, query@);
    }
    let ghost cv = cf.deep_view();
    let mut v: Vec<Likely> = Vec::new();
    let mut k: usize = 0;
    while k < cf.len()
        invariant
            cv == cf.deep_view(),
            cv.len() <= usize::MAX,
            k <= cv.len(),
            unique_files(likely_view(v@)),
            forall|g: Seq<char>| has_file(likely_view(v@), g) <==> count_of(cv.take(k as int), g) > 0,
            forall|m: int|
                0 <= m < v@.len() ==> (#[trigger] v@[m]).commits == count_of(cv.take(k as int), v@[m].file@)
                    && v@[m].sessions == 0,
        decreases cv.len() - k,
    {
        let f = &cf[k];
        proof {
            assert(cv[k as int] == f@);
            assert(cv.take(k + 1) =~= cv.take(k as int).push(f@));
            assert forall|m: int| 0 <= m < v@.len() && v@[m].file@ == f@ implies v@[m].commits + 1 <= usize::MAX
                && v@[m].sessions + 0 <= usize::MAX by {
                lemma_count_le(cv.take(k as int), f@);
            }
        }
        let ghost before = v@;
        bump(&mut v, f.as_str(), 1, 0);
        proof {
            assert forall|g: Seq<char>| has_file(likely_view(v@), g) <==> count_of(cv.take(k + 1), g) > 0 by {
                lemma_count_push(cv.take(k as int), f@, g);
            }
            assert forall|m: int|
                0 <= m < v@.len() implies (#[trigger] v@[m]).commits == count_of(cv.take(k + 1), v@[m].file@)
                && v@[m].sessions == 0 by {
                let l = v@[m];
                lemma_count_push(cv.take(k as int), f@, l.file@);
                if l.file@ == f@ {
                    match find(likely_view(before), f@) {
                        Some(q) => {
                            assert(likely_view(before)[q].file == f@);
                        },
                        None => {
                            if count_of(cv.take(k as int), f@) > 0 {
                                assert(has_file(likely_view(before), f@));
                            }
                        },
                    }
                } else {
                    let q = choose|q: int| 0 <= q < before.len() && before[q] == l;
                    assert(before[q].file@ == l.file@);
                }
            }
        }
        k += 1;
    }
    proof {
        assert(cv.take(cv.len() as int) =~= cv);
    }
    // The sessions that edited them while asked about the task.
    let n = if sessions.len() < TASK_SESSIONS_READ {
        sessions.len()
    } else {
        TASK_SESSIONS_READ
    };
    let ghost root = paths.root@;
    let mut si: usize = 0;
    while si < n
        invariant
            n as int == sessions_read(sessions@.len()),
            n <= sessions@.len(),
            si <= n,
            root == paths.root@,
            cv == commit_files(commits@, query@),
            unique_files(likely_view(v@)),
            forall|g: Seq<char>|
                has_file(likely_view(v@), g) <==> (count_of(cv, g) > 0 || sessions_with(
                    sessions@,
                    root,
                    query@,
                    g,
                    si as int,
                ) > 0),
            forall|m: int|
                0 <= m < v@.len() ==> (#[trigger] v@[m]).commits == count_of(cv, v@[m].file@) && v@[m].sessions
                    == sessions_with(sessions@, root, query@, v@[m].file@, si as int),
        decreases n - si,
    {
        let ed = edited_exec(sessions[si].as_slice(), paths, query);
        let ghost ev = ed.deep_view();
        let ghost set = edited_in(sessions@[si as int]@, root, query@);
        let mut k: usize = 0;
        while k < ed.len()
            invariant
                ev == ed.deep_view(),
                sorted_strs(ev),
                ev.to_set() == set,
                set == edited_in(sessions@[si as int]@, root, query@),
                si < n,
                n <= sessions@.len(),
                k <= ev.len(),
                root == paths.root@,
                unique_files(likely_view(v@)),
                forall|g: Seq<char>|
                    has_file(likely_view(v@), g) <==> (count_of(cv, g) > 0 || sessions_with(
                        sessions@,
                        root,
                        query@,
                        g,
                        si as int,
                    ) > 0 || ev.take(k as int).contains(g)),
                forall|m: int|
                    0 <= m < v@.len() ==> (#[trigger] v@[m]).commits == count_of(cv, v@[m].file@) && v@[m].sessions
                        == sessions_with(sessions@, root, query@, v@[m].file@, si as int) + if ev.take(
                        k as int,
                    ).contains(v@[m].file@) {
                        1nat
                    } else {
                        0nat
                    },
            decreases ev.len() - k,
        {
            let f = &ed[k];
            proof {
                assert(ev[k as int] == f@);
                assert(ev.take(k + 1) =~= ev.take(k as int).push(f@));
                let t0 = ev.take(k as int);
                assert(!t0.contains(f@)) by {
                    if t0.contains(f@) {
                        let q = choose|q: int| 0 <= q < t0.len() && t0[q] == f@;
                        lemma_sorted_distinct(ev, q, k as int);
                    }
                }
                assert forall|m: int| 0 <= m < v@.len() && v@[m].file@ == f@ implies v@[m].commits + 0 <= usize::MAX
                    && v@[m].sessions + 1 <= usize::MAX by {
                    lemma_sessions_le(sessions@, root, query@, f@, si as int);
                }
            }
            let ghost before = v@;
            bump(&mut v, f.as_str(), 0, 1);
            proof {
                let t0 = ev.take(k as int);
                let t1 = ev.take(k + 1);
                assert forall|g: Seq<char>|
                    has_file(likely_view(v@), g) <==> (count_of(cv, g) > 0 || sessions_with(
                        sessions@,
                        root,
                        query@,
                        g,
                        si as int,
                    ) > 0 || ev.take(k + 1).contains(g)) by {
                    if t1.contains(g) && g != f@ {
                        let q = choose|q: int| 0 <= q < t1.len() && t1[q] == g;
                        assert(t0[q] == g);
                    }
                    if t0.contains(g) {
                        let q = choose|q: int| 0 <= q < t0.len() && t0[q] == g;
                        assert(t1[q] == g);
                    }
                    if g == f@ {
                        assert(ev.take(k + 1)[k as int] == g);
                    }
                }
                assert forall|m: int|
                    0 <= m < v@.len() implies (#[trigger] v@[m]).commits == count_of(cv, v@[m].file@)
                    && v@[m].sessions == sessions_with(sessions@, root, query@, v@[m].file@, si as int) + if ev.take(
                    k + 1,
                ).contains(v@[m].file@) {
                    1nat
                } else {
                    0nat
                } by {
                    let l = v@[m];
                    if l.file@ == f@ {
                        assert(ev.take(k + 1)[k as int] == f@);
                        match find(likely_view(before), f@) {
                            Some(q) => {
                                assert(likely_view(before)[q].file == f@);
                            },
                            None => {
                                if count_of(cv, f@) > 0 || sessions_with(sessions@, root, query@, f@, si as int) > 0 {
                                    assert(has_file(likely_view(before), f@));
                                }
                            },
                        }
                    } else {
                        let q = choose|q: int| 0 <= q < before.len() && before[q] == l;
                        assert(before[q].file@ == l.file@);
                        if t1.contains(l.file@) {
                            let p = choose|p: int| 0 <= p < t1.len() && t1[p] == l.file@;
                            assert(t0[p] == l.file@);
                        }
                        if t0.contains(l.file@) {
                            let p = choose|p: int| 0 <= p < t0.len() && t0[p] == l.file@;
                            assert(t1[p] == l.file@);
                        }
                    }
                }
            }
            k += 1;
        }
        proof {
            assert(ev.take(ev.len() as int) =~= ev);
            assert forall|g: Seq<char>| ev.contains(g) <==> set.contains(g) by {
                if ev.contains(g) {
                    assert(ev.to_set().contains(g));
                }
                if set.contains(g) {
                    assert(ev.to_set().contains(g));
                }
            }
        }
        si += 1;
    }
    v
}

/// Two positions of a strictly ascending list hold different texts.
proof fn lemma_sorted_distinct(ev: Seq<Seq<char>>, q: int, k: int)
    requires
        sorted_strs(ev),
        0 <= q < k < ev.len(),
    ensures
        ev[q] != ev[k],
{
    assert(crate::text::seq_lt(ev[q], ev[k]));
    crate::order::lemma_seq_lt_irrefl(ev[q]);
}

proof fn lemma_sessions_le(ss: Seq<Vec<Event>>, root: Seq<char>, query: Seq<char>, f: Seq<char>, n: int)
    requires
        0 <= n,
    ensures
        sessions_with(ss, root, query, f, n) <= n,
    decreases n,
{
    if n > 0 {
        lemma_sessions_le(ss, root, query, f, n - 1);
    }
}


// ---------------------------------------------------------------------------
// Ranking
// ---------------------------------------------------------------------------

/// How much a file is evidenced: a commit counts twice a session.
pub open spec fn score(l: LikelyV) -> nat {
    2 * l.commits + l.sessions
}

/// `o` lists `v` most evidence first, then by file.
pub open spec fn ranked(v: Seq<LikelyV>, o: Seq<usize>) -> bool {
    &&& crate::order::is_order(o, v.len())
    &&& forall|a: int, b: int|
        0 <= a < b < o.len() ==> score(v[#[trigger] o[b] as int]) <= score(v[#[trigger] o[a] as int]) && (score(
            v[o[b] as int],
        ) == score(v[o[a] as int]) ==> !crate::text::seq_lt(v[o[b] as int].file, v[o[a] as int].file))
}

/// A ranking puts more evidence first, a commit counting as two
/// sessions: of two files with as many commits, the one with more
/// sessions comes first; of two with as many sessions, the one with more
/// commits; files of equal evidence come in file order.
pub proof fn law_ranked_more_evidence_first(v: Seq<LikelyV>, o: Seq<usize>)
    requires
        ranked(v, o),
    ensures
        forall|a: int, b: int|
            0 <= a < b < o.len() ==> {
                let x = v[#[trigger] o[a] as int];
                let y = v[#[trigger] o[b] as int];
                &&& 2 * y.commits + y.sessions <= 2 * x.commits + x.sessions
                &&& (x.commits == y.commits ==> y.sessions <= x.sessions)
                &&& (x.sessions == y.sessions ==> y.commits <= x.commits)
                &&& (2 * y.commits + y.sessions == 2 * x.commits + x.sessions ==> !crate::text::seq_lt(
                    y.file,
                    x.file,
                ))
            },
{
}

pub open spec fn kept(v: Seq<LikelyV>, present: Seq<bool>) -> Seq<LikelyV>
    decreases v.len(),
{
    if v.len() == 0 {
        seq![]
    } else {
        let prev = kept(v.drop_last(), present.drop_last());
        if present.last() {
            prev.push(v.last())
        } else {
            prev
        }
    }
}

/// The files a task will likely touch: of `found`, those `present` says
/// still exist, most evidence first, then by file, at most `TASK_FILES`.
pub fn files(found: Vec<Likely>, present: &[bool]) -> (r: Vec<Likely>)
    requires
        present@.len() == found@.len(),
    ensures
        exists|o: Seq<usize>|
            {
                &&& #[trigger] ranked(kept(likely_view(found@), present@), o)
                &&& likely_view(r@) == o.take(
                    if o.len() < TASK_FILES {
                        o.len() as int
                    } else {
                        TASK_FILES as int
                    },
                ).map_values(|k: usize| kept(likely_view(found@), present@)[k as int])
            },
        forall|i: int, j: int|
            0 <= i < j < r@.len() ==> {
                let x = #[trigger] r@[i];
                let y = #[trigger] r@[j];
                &&& 2 * y.commits + y.sessions <= 2 * x.commits + x.sessions
                &&& (2 * y.commits + y.sessions == 2 * x.commits + x.sessions ==> !crate::text::seq_lt(
                    y.file@,
                    x.file@,
                ))
            },
{
    let ghost fv = likely_view(found@);
    let mut v: Vec<Likely> = Vec::new();
    let mut i: usize = 0;
    while i < found.len()
        invariant
            fv == likely_view(found@),
            present@.len() == found@.len(),
            i <= found@.len(),
            likely_view(v@) == kept(fv.take(i as int), present@.take(i as int)),
        decreases found@.len() - i,
    {
        proof {
            assert(fv.take(i + 1).drop_last() =~= fv.take(i as int));
            assert(present@.take(i + 1).drop_last() =~= present@.take(i as int));
            assert(present@.take(i + 1).last() == present@[i as int]);
        }
        if present[i] {
            let l = Likely { file: found[i].file.clone(), commits: found[i].commits, sessions: found[i].sessions };
            let ghost before = likely_view(v@);
            v.push(l);
            proof {
                assert(likely_view(v@) =~= before.push(fv[i as int]));
            }
        }
        i += 1;
    }
    proof {
        assert(fv.take(found@.len() as int) =~= fv);
        assert(present@.take(found@.len() as int) =~= present@);
    }
    let ghost kv = likely_view(v@);
    // By file first; a stable sort by evidence then keeps files in order.
    let mut names: Vec<Vec<char>> = Vec::new();
    let mut j: usize = 0;
    while j < v.len()
        invariant
            kv == likely_view(v@),
            j <= v@.len(),
            names.deep_view() =~= kv.take(j as int).map_values(|l: LikelyV| l.file),
        decreases v@.len() - j,
    {
        let c = chars_of(v[j].file.as_str());
        let ghost before = names.deep_view();
        names.push(c);
        proof {
            assert(c.deep_view() =~= c@);
            assert(names.deep_view() =~= before.push(c@));
            assert(kv.take(j + 1).map_values(|l: LikelyV| l.file) =~= kv.take(j as int).map_values(
                |l: LikelyV| l.file,
            ).push(kv[j as int].file));
        }
        j += 1;
    }
    proof {
        assert(kv.take(v@.len() as int) =~= kv);
    }
    let ghost nk = kv.map_values(|l: LikelyV| l.file);
    let p1 = order_by_text(&names, false);
    let mut scores: Vec<u128> = Vec::new();
    let mut m: usize = 0;
    while m < p1.len()
        invariant
            kv == likely_view(v@),
            text_order(p1@, nk, false),
            nk.len() == kv.len(),
            m <= p1@.len(),
            scores@ =~= p1@.take(m as int).map_values(|k: usize| score(kv[k as int]) as u128),
        decreases p1@.len() - m,
    {
        let k = p1[m];
        proof {
            assert(p1@[m as int] < nk.len());
        }
        let l = &v[k];
        let sc: u128 = 2 * (l.commits as u128) + l.sessions as u128;
        scores.push(sc);
        proof {
            assert(kv[k as int] == l.view());
            assert(p1@.take(m + 1).map_values(|k: usize| score(kv[k as int]) as u128) =~= p1@.take(
                m as int,
            ).map_values(|k: usize| score(kv[k as int]) as u128).push(score(kv[k as int]) as u128));
        }
        m += 1;
    }
    proof {
        assert(p1@.take(p1@.len() as int) =~= p1@);
    }
    let p2 = order_by_num(&scores, true);
    let ghost o = p2@.map_values(|a: usize| p1@[a as int]);
    proof {
        lemma_ranked(kv, nk, scores@, p1@, p2@);
        assert(p1@.len() == kv.len());
        assert(p2@.len() == kv.len());
    }
    let limit = if p2.len() < TASK_FILES {
        p2.len()
    } else {
        TASK_FILES
    };
    let mut out: Vec<Likely> = Vec::new();
    let mut q: usize = 0;
    while q < limit
        invariant
            kv == likely_view(v@),
            ranked(kv, o),
            o == p2@.map_values(|a: usize| p1@[a as int]),
            limit <= p2@.len(),
            p2@.len() == kv.len(),
            p1@.len() == kv.len(),
            forall|i: int| 0 <= i < p2@.len() ==> (#[trigger] p2@[i]) < p1@.len(),
            forall|i: int| 0 <= i < p1@.len() ==> (#[trigger] p1@[i]) < kv.len(),
            q <= limit,
            likely_view(out@) =~= o.take(q as int).map_values(|k: usize| kv[k as int]),
        decreases limit - q,
    {
        let a = p2[q];
        proof {
            assert(o[q as int] == p1@[a as int]);
            assert(o[q as int] < kv.len());
        }
        let k = p1[a];
        let l = Likely { file: v[k].file.clone(), commits: v[k].commits, sessions: v[k].sessions };
        let ghost before = likely_view(out@);
        out.push(l);
        proof {
            assert(likely_view(out@) =~= before.push(kv[k as int]));
            assert(o.take(q + 1).map_values(|k: usize| kv[k as int]) =~= o.take(q as int).map_values(
                |k: usize| kv[k as int],
            ).push(kv[o[q as int] as int]));
        }
        q += 1;
    }
    proof {
        assert(o.len() == p2@.len());
        assert(ranked(kept(likely_view(found@), present@), o));
        law_ranked_more_evidence_first(kv, o);
        assert forall|i: int, j: int| 0 <= i < j < out@.len() implies {
            let x = #[trigger] out@[i];
            let y = #[trigger] out@[j];
            &&& 2 * y.commits + y.sessions <= 2 * x.commits + x.sessions
            &&& (2 * y.commits + y.sessions == 2 * x.commits + x.sessions ==> !crate::text::seq_lt(
                y.file@,
                x.file@,
            ))
        } by {
            assert(out@[i].view() == likely_view(out@)[i]);
            assert(out@[j].view() == likely_view(out@)[j]);
            assert(likely_view(out@)[i] == kv[o[i] as int]);
            assert(likely_view(out@)[j] == kv[o[j] as int]);
        }
    }
    out
}

/// A stable sort by evidence of a list already in file order ranks it.
proof fn lemma_ranked(kv: Seq<LikelyV>, nk: Seq<Seq<char>>, scores: Seq<u128>, p1: Seq<usize>, p2: Seq<usize>)
    requires
        nk == kv.map_values(|l: LikelyV| l.file),
        text_order(p1, nk, false),
        scores == p1.map_values(|k: usize| score(kv[k as int]) as u128),
        num_order(p2, scores, true),
        forall|k: int| 0 <= k < kv.len() ==> (#[trigger] kv[k]).commits <= usize::MAX && kv[k].sessions <= usize::MAX,
        kv.len() <= usize::MAX,
    ensures
        ranked(kv, p2.map_values(|a: usize| p1[a as int])),
{
    let o = p2.map_values(|a: usize| p1[a as int]);
    let n = kv.len();
    assert(p1.len() == n);
    assert(scores.len() == n);
    assert(p2.len() == n);
    assert forall|a: int| 0 <= a < o.len() implies (#[trigger] o[a]) < n by {
        assert(p2[a] < n);
        assert(p1[p2[a] as int] < n);
    }
    assert forall|j: usize| j < n implies #[trigger] o.contains(j) by {
        assert(p1.contains(j));
        let x = choose|x: int| 0 <= x < p1.len() && p1[x] == j;
        assert(p2.contains(x as usize));
        let y = choose|y: int| 0 <= y < p2.len() && p2[y] == x as usize;
        assert(o[y] == p1[p2[y] as int]);
        assert((x as usize) as int == x);
        assert(o[y] == j);
    }
    assert forall|a: int, b: int| 0 <= a < b < o.len() implies score(kv[#[trigger] o[b] as int]) <= score(
        kv[#[trigger] o[a] as int],
    ) && (score(kv[o[b] as int]) == score(kv[o[a] as int]) ==> !crate::text::seq_lt(
        kv[o[b] as int].file,
        kv[o[a] as int].file,
    )) by {
        let x = p2[a];
        let y = p2[b];
        assert(o[a] == p1[x as int]);
        assert(o[b] == p1[y as int]);
        assert(x < n && y < n);
        let kx = kv[p1[x as int] as int];
        let ky = kv[p1[y as int] as int];
        assert(score(kx) <= 3 * usize::MAX);
        assert(score(ky) <= 3 * usize::MAX);
        assert(!crate::order::num_before(scores[y as int], scores[x as int], true));
        assert(scores[x as int] == score(kv[p1[x as int] as int]) as u128);
        assert(scores[y as int] == score(kv[p1[y as int] as int]) as u128);
        if score(kv[o[b] as int]) == score(kv[o[a] as int]) {
            assert(scores[x as int] == scores[y as int]);
            assert(x < y);
            assert(nk[p1[y as int] as int] == kv[p1[y as int] as int].file);
            assert(nk[p1[x as int] as int] == kv[p1[x as int] as int].file);
            assert(!crate::order::text_before(nk[p1[y as int] as int], nk[p1[x as int] as int], false));
        }
    }
}

impl Likely {
    /// The file and why: `src/pay.rs · 2 commits, 1 session`.
    pub fn line(&self) -> (r: String)
        ensures
            r@ == likely_line(self.view()),
    {
        let mut v = chars_of(self.file.as_str());
        push_text(&mut v, " · ");
        if self.commits > 0 {
            let c = count(self.commits, "commit");
            push_all(&mut v, &c);
        }
        if self.commits > 0 && self.sessions > 0 {
            push_text(&mut v, ", ");
        }
        if self.sessions > 0 {
            let s = count(self.sessions, "session");
            push_all(&mut v, &s);
        }
        proof {
            let c = count_spec(self.commits as nat, "commit"@);
            let s = count_spec(self.sessions as nat, "session"@);
            assert(v@ =~= likely_line(self.view()));
        }
        string_of(&v)
    }
}

} // verus!
