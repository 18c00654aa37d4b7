//! Append-only event spool, one JSONL file per harness session. Hooks
//! only ever append there; everything else is derived later. This module
//! holds the events as values and the rules for naming their files.

use vstd::prelude::*;

use crate::json::Json;
use crate::paths::{join, join_spec, Paths};
use crate::text::{ascii_alnum, chars_of, is_ascii_alnum, str_eq, string_of, trim, trim_spec};
use crate::time::{iso_spec, now_iso};

verus! {

pub struct Event {
    pub ts: String,
    pub session: String,
    pub event: String,
    /// Idempotency key: `tool_use_id` when available, else event + ts.
    pub key: String,
    pub data: Json,
}

impl Event {
    pub fn new(session: &str, event: &str, key: Option<&str>, data: Json) -> (e: Event)
        ensures
            e.session@ == session@,
            e.event@ == event@,
            e.data == data,
            exists|t: nat| e.ts@ == iso_spec(t),
            key.is_some() ==> e.key@ == key.unwrap()@,
            key.is_none() ==> e.key@ == event@ + seq![':'] + e.ts@,
    {
        let ts = now_iso();
        let k = match key {
            Some(k) => string_of(&chars_of(k)),
            None => {
                let mut v = chars_of(event);
                v.push(':');
                crate::fmt::push_text(&mut v, ts.as_str());
                string_of(&v)
            },
        };
        Event {
            ts,
            session: string_of(&chars_of(session)),
            event: string_of(&chars_of(event)),
            key: k,
            data,
        }
    }
}

/// Set by `relay <harness>` on the harness it launches. Hooks inherit
/// it and stamp it on `session_start`, which is how the wrapper finds its
/// own session when others run in the same worktree.
pub const WRAPPER_ENV: &'static str = "RELAY_WRAPPER";

/// A session id as a file name: ASCII letters, digits, `-` and `_` kept,
/// anything else `_`.
pub open spec fn safe_spec(s: Seq<char>) -> Seq<char> {
    s.map_values(|c: char| if is_ascii_alnum(c) || c == '-' || c == '_' { c } else { '_' })
}

pub fn safe(s: &str) -> (r: String)
    ensures
        r@ == safe_spec(s@),
{
    let v = chars_of(s);
    let mut out: Vec<char> = Vec::new();
    let mut i: usize = 0;
    while i < v.len()
        invariant
            i <= v.len(),
            out@ == safe_spec(v@.take(i as int)),
        decreases v.len() - i,
    {
        let c = v[i];
        out.push(
            if ascii_alnum(c) || c == '-' || c == '_' {
                c
            } else {
                '_'
            },
        );
        i += 1;
        assert(out@ =~= safe_spec(v@.take(i as int)));
    }
    assert(v@.take(v.len() as int) =~= v@);
    string_of(&out)
}

/// The spool file of `session`.
pub fn file_for(paths: &Paths, session: &str) -> (r: String)
    ensures
        r@ == join_spec(join_spec(paths.local@, "spool"@), safe_spec(session@) + ".jsonl"@),
{
    let dir = paths.spool();
    let mut name = chars_of(safe(session).as_str());
    crate::fmt::push_text(&mut name, ".jsonl");
    let n = string_of(&name);
    join(dir.as_str(), n.as_str())
}

/// The wrappers named by the `session_start` events among `evs`, in order.
pub open spec fn wrappers_spec(evs: Seq<Event>) -> Seq<Seq<char>>
    decreases evs.len(),
{
    if evs.len() == 0 {
        seq![]
    } else {
        let e = evs.last();
        let before = wrappers_spec(evs.drop_last());
        if e.event@ == "session_start"@ && e.data.at("wrapper"@).str_of().is_some() {
            before.push(e.data.at("wrapper"@).str_of().unwrap())
        } else {
            before
        }
    }
}

/// The wrapper that launched a session, from its `session_start` events
/// (a resumed session has several; any of them counts).
pub fn wrappers(events: &[Event]) -> (r: Vec<String>)
    ensures
        r@.map_values(|s: String| s@) == wrappers_spec(events@),
{
    let mut out: Vec<String> = Vec::new();
    let mut i: usize = 0;
    while i < events.len()
        invariant
            i <= events.len(),
            out@.map_values(|s: String| s@) == wrappers_spec(events@.take(i as int)),
        decreases events.len() - i,
    {
        let e = &events[i];
        proof {
            assert(events@.take(i + 1).drop_last() =~= events@.take(i as int));
            assert(events@.take(i + 1).last() == events@[i as int]);
        }
        if str_eq(e.event.as_str(), "session_start") {
            match e.data.str_at("wrapper") {
                Some(w) => {
                    let ghost before = out@;
                    out.push(string_of(&chars_of(w)));
                    assert(out@.map_values(|s: String| s@) =~= before.map_values(|s: String| s@).push(
                        w@,
                    ));
                },
                None => {},
            }
        }
        i += 1;
    }
    assert(events@.take(events.len() as int) =~= events@);
    out
}


/// A hook may record the same event twice (a retry, a resumed session):
/// the first event with each key counts.
pub open spec fn first_of_key(evs: Seq<Event>) -> Seq<Event>
    decreases evs.len(),
{
    if evs.len() == 0 {
        seq![]
    } else {
        let prev = first_of_key(evs.drop_last());
        if exists|j: int| 0 <= j < evs.len() - 1 && evs[j].key@ == evs.last().key@ {
            prev
        } else {
            prev.push(evs.last())
        }
    }
}

pub open spec fn has_key(s: Seq<Event>, k: Seq<char>) -> bool {
    exists|j: int| 0 <= j < s.len() && s[j].key@ == k
}

/// The events read back from a session's file, each key once.
pub fn unique_events(events: Vec<Event>) -> (r: Vec<Event>)
    ensures
        r@ == first_of_key(events@),
{
    let n = events.len();
    let ghost all = events@;
    assert(all.len() == n);
    let mut rest = events;
    let mut out: Vec<Event> = Vec::new();
    let mut i: usize = 0;
    while rest.len() > 0
        invariant
            i + rest@.len() == all.len(),
            all.len() <= usize::MAX,
            rest@ == all.skip(i as int),
            out@ == first_of_key(all.take(i as int)),
            forall|k: Seq<char>| #[trigger] has_key(all.take(i as int), k) <==> has_key(out@, k),
        decreases rest@.len(),
    {
        let e = rest.remove(0);
        let ghost t0 = all.take(i as int);
        let ghost t = all.take(i + 1);
        proof {
            assert(e == all[i as int]);
            assert(rest@ =~= all.skip(i + 1));
            assert(t.drop_last() =~= t0);
            assert(t.last() == e);
        }
        let mut seen = false;
        let mut m: usize = 0;
        while m < out.len()
            invariant
                m <= out@.len(),
                seen == has_key(out@.take(m as int), e.key@),
            decreases out@.len() - m,
        {
            proof {
                let a = out@.take(m as int);
                let b = out@.take(m + 1);
                if has_key(b, e.key@) {
                    let q = choose|q: int| 0 <= q < b.len() && b[q].key@ == e.key@;
                    if q < m {
                        assert(a[q].key@ == e.key@);
                    }
                }
                if has_key(a, e.key@) {
                    let q = choose|q: int| 0 <= q < a.len() && a[q].key@ == e.key@;
                    assert(b[q].key@ == e.key@);
                }
            }
            if str_eq(out[m].key.as_str(), e.key.as_str()) {
                seen = true;
                proof {
                    assert(out@.take(m + 1)[m as int].key@ == e.key@);
                }
            }
            m += 1;
        }
        proof {
            assert(out@.take(out@.len() as int) =~= out@);
            assert(seen == has_key(t0, e.key@));
            if seen {
                let j = choose|j: int| 0 <= j < t0.len() && t0[j].key@ == e.key@;
                assert(t[j].key@ == t.last().key@);
            } else {
                assert(!(exists|j: int| 0 <= j < t.len() - 1 && t[j].key@ == t.last().key@)) by {
                    if exists|j: int| 0 <= j < t.len() - 1 && t[j].key@ == t.last().key@ {
                        let j = choose|j: int| 0 <= j < t.len() - 1 && t[j].key@ == t.last().key@;
                        assert(t0[j].key@ == e.key@);
                    }
                }
            }
        }
        let ghost before = out@;
        if !seen {
            out.push(e);
        }
        proof {
            assert forall|k: Seq<char>| #[trigger] has_key(t, k) <==> has_key(out@, k) by {
                if has_key(t, k) {
                    let j = choose|j: int| 0 <= j < t.len() && t[j].key@ == k;
                    if j < i {
                        assert(t0[j].key@ == k);
                        assert(has_key(t0, k));
                        assert(has_key(before, k));
                        let m = choose|m: int| 0 <= m < before.len() && before[m].key@ == k;
                        assert(out@[m].key@ == k);
                    } else if !seen {
                        assert(out@[before.len() as int].key@ == k);
                    } else {
                        assert(has_key(before, k));
                    }
                }
                if has_key(out@, k) {
                    let m = choose|m: int| 0 <= m < out@.len() && out@[m].key@ == k;
                    if m < before.len() {
                        assert(before[m].key@ == k);
                        assert(has_key(t0, k));
                        let j = choose|j: int| 0 <= j < t0.len() && t0[j].key@ == k;
                        assert(t[j].key@ == k);
                    } else {
                        assert(t[i as int].key@ == k);
                    }
                }
            }
        }
        i += 1;
    }
    proof {
        assert(all.take(i as int) =~= all);
    }
    out
}


/// An event read back counts once: no two kept events share a key, and
/// every key recorded is kept.
pub proof fn law_each_key_once(evs: Seq<Event>)
    ensures
        forall|i: int, j: int| 0 <= i < j < first_of_key(evs).len() ==> first_of_key(evs)[i].key@ != first_of_key(
            evs,
        )[j].key@,
        forall|k: Seq<char>| #[trigger] has_key(evs, k) <==> has_key(first_of_key(evs), k),
    decreases evs.len(),
{
    if evs.len() > 0 {
        let d = evs.drop_last();
        law_each_key_once(d);
        let prev = first_of_key(d);
        let e = evs.last();
        let seen = exists|j: int| 0 <= j < evs.len() - 1 && evs[j].key@ == e.key@;
        if !seen {
            let cur = prev.push(e);
            assert(!has_key(d, e.key@)) by {
                if has_key(d, e.key@) {
                    let j = choose|j: int| 0 <= j < d.len() && d[j].key@ == e.key@;
                    assert(evs[j].key@ == e.key@);
                }
            }
            assert forall|i: int, j: int| 0 <= i < j < cur.len() implies cur[i].key@ != cur[j].key@ by {
                if j == cur.len() - 1 {
                    if cur[i].key@ == e.key@ {
                        assert(prev[i].key@ == e.key@);
                        assert(has_key(prev, e.key@));
                    }
                }
            }
            assert forall|k: Seq<char>| #[trigger] has_key(evs, k) <==> has_key(cur, k) by {
                if has_key(evs, k) {
                    let j = choose|j: int| 0 <= j < evs.len() && evs[j].key@ == k;
                    if j < evs.len() - 1 {
                        assert(d[j].key@ == k);
                        assert(has_key(d, k));
                        assert(has_key(prev, k));
                        let m = choose|m: int| 0 <= m < prev.len() && prev[m].key@ == k;
                        assert(cur[m].key@ == k);
                    } else {
                        assert(cur[cur.len() - 1].key@ == k);
                    }
                }
                if has_key(cur, k) {
                    let m = choose|m: int| 0 <= m < cur.len() && cur[m].key@ == k;
                    if m < prev.len() {
                        assert(prev[m].key@ == k);
                        assert(has_key(prev, k));
                        assert(has_key(d, k));
                        let j = choose|j: int| 0 <= j < d.len() && d[j].key@ == k;
                        assert(evs[j].key@ == k);
                    } else {
                        assert(evs[evs.len() - 1].key@ == k);
                    }
                }
            }
        } else {
            assert forall|k: Seq<char>| #[trigger] has_key(evs, k) <==> has_key(prev, k) by {
                if has_key(evs, k) {
                    let j = choose|j: int| 0 <= j < evs.len() && evs[j].key@ == k;
                    if j < evs.len() - 1 {
                        assert(d[j].key@ == k);
                        assert(has_key(d, k));
                    } else {
                        let q = choose|q: int| 0 <= q < evs.len() - 1 && evs[q].key@ == e.key@;
                        assert(d[q].key@ == k);
                        assert(has_key(d, k));
                    }
                }
                if has_key(prev, k) {
                    assert(has_key(d, k));
                    let j = choose|j: int| 0 <= j < d.len() && d[j].key@ == k;
                    assert(evs[j].key@ == k);
                }
            }
        }
    }
}

/// The session a `current_session` file names: its text trimmed, `None`
/// when that is empty.
pub fn current_session(text: &str) -> (r: Option<String>)
    ensures
        r.is_some() == (trim_spec(text@).len() > 0),
        r.is_some() ==> r.unwrap()@ == trim_spec(text@),
{
    let v = chars_of(text);
    let t = trim(&v);
    if t.len() == 0 {
        None
    } else {
        Some(string_of(&t))
    }
}

} // verus!
