//! What a session did, distilled from its spool events and stored outputs.

use vstd::prelude::*;

use crate::fmt::{dec, push_all, push_dec, push_text, truncate_chars, truncate_spec};
use crate::json::Json;
use crate::limits::{HANDOFF_COMMANDS, HANDOFF_COMMAND_CHARS, HANDOFF_FAILING, HANDOFF_READ_FIRST};
use crate::order::{num_order, order_by_num};
use crate::outputs::OutputMeta;
use crate::paths::{rel_chars, rel_spec};
use crate::spool::Event;
use crate::text::{
    chars_eq, chars_of, find_from, first_at_or_after, has_prefix, is_blank, join, join_spec, occurs_at, slice,
    split_whitespace, starts_with, str_eq, string_of, trim, trim_spec, trim_start, trim_start_spec, words_of,
};
use crate::usage::{first_edit, is_edit, is_edit_event, is_edit_spec};

verus! {

pub struct Summary {
    pub started: String,
    pub harness: String,
    pub prompts: Vec<String>,
    pub last_reply: Option<String>,
    pub files: Vec<(String, usize)>,
    pub read_first: Vec<String>,
    pub remembered: Vec<String>,
    pub commands: Vec<String>,
    pub failing: Vec<String>,
}

// ---------------------------------------------------------------------------
// Prompts
// ---------------------------------------------------------------------------

/// Newlines as spaces.
pub open spec fn one_line(s: Seq<char>) -> Seq<char> {
    s.map_values(|c: char| if c == '\n' { ' ' } else { c })
}

fn one_line_exec(s: &[char]) -> (r: Vec<char>)
    ensures
        r@ == one_line(s@),
{
    let mut r: Vec<char> = Vec::new();
    let mut i: usize = 0;
    while i < s.len()
        invariant
            i <= s@.len(),
            r@ =~= one_line(s@).take(i as int),
        decreases s@.len() - i,
    {
        r.push(if s[i] == '\n' {
            ' '
        } else {
            s[i]
        });
        proof {
            assert(one_line(s@).take(i + 1) =~= one_line(s@).take(i as int).push(one_line(s@)[i as int]));
        }
        i += 1;
    }
    proof {
        assert(one_line(s@).take(s@.len() as int) =~= one_line(s@));
    }
    r
}

/// What the harness delivers as a user turn: subagent reports, task
/// notices, command echoes.
pub open spec fn harness_turn(s: Seq<char>) -> bool {
    let t = trim_start_spec(s);
    has_prefix(t, "<task-notification>"@) || has_prefix(t, "<agent-message"@) || has_prefix(t, "<system-reminder>"@)
        || has_prefix(t, "<local-command-"@) || has_prefix(t, "<command-name>"@) || has_prefix(
        t,
        "<command-message>"@,
    ) || has_prefix(t, "<bash-input>"@) || has_prefix(t, "<bash-stdout>"@) || has_prefix(t, "<bash-stderr>"@)
}

fn harness_turn_exec(s: &[char]) -> (r: bool)
    ensures
        r == harness_turn(s@),
{
    let t = trim_start(s);
    let is = |p: &str| -> (b: bool)
        ensures
            b == has_prefix(t@, p@),
        { starts_with(&t, &chars_of(p)) };
    is("<task-notification>") || is("<agent-message") || is("<system-reminder>") || is("<local-command-") || is(
        "<command-name>",
    ) || is("<command-message>") || is("<bash-input>") || is("<bash-stdout>") || is("<bash-stderr>")
}

/// One or two words only say to go on; the ask they answer is in a
/// reply, not here. Any language.
pub open spec fn continuer(s: Seq<char>) -> bool {
    words_of(s).len() < 3
}

/// A typed ask: not blank, not a slash command, not a harness turn, not a
/// continuer.
pub open spec fn is_ask(s: Seq<char>) -> bool {
    trim_spec(s).len() > 0 && !has_prefix(s, "/"@) && !harness_turn(s) && !continuer(s)
}

/// Where a search for `p` from `from` on lands, or `None`.
pub open spec fn find_at(s: Seq<char>, p: Seq<char>, from: int) -> Option<int> {
    if exists|i: int| first_at_or_after(s, p, from, i) {
        Some(choose|i: int| first_at_or_after(s, p, from, i))
    } else {
        None
    }
}

proof fn lemma_find_at(s: Seq<char>, p: Seq<char>, from: int, i: int)
    requires
        first_at_or_after(s, p, from, i),
    ensures
        find_at(s, p, from) == Some(i),
{
    let j = choose|j: int| first_at_or_after(s, p, from, j);
    if j < i {
        assert(!occurs_at(s, p, j));
    } else if j > i {
        assert(!occurs_at(s, p, i));
    }
}

pub fn find_at_exec(s: &[char], p: &[char], from: usize) -> (r: Option<usize>)
    ensures
        match r {
            Some(i) => find_at(s@, p@, from as int) == Some(i as int),
            None => find_at(s@, p@, from as int) is None,
        },
{
    let r = find_from(s, p, from);
    proof {
        match r {
            Some(i) => lemma_find_at(s@, p@, from as int, i as int),
            None => {
                if exists|i: int| first_at_or_after(s@, p@, from as int, i) {
                    let i = choose|i: int| first_at_or_after(s@, p@, from as int, i);
                    assert(occurs_at(s@, p@, i));
                }
            },
        }
    }
    r
}

/// A pasted block is the user's material, not their ask; the words
/// around it are.
pub open spec fn without_pasted(s: Seq<char>) -> Seq<char> {
    match find_at(s, "<pasted_content"@, 0) {
        None => s,
        Some(start) => {
            let end = match find_at(s, "</pasted_content"@, start) {
                Some(close) => match find_at(s, ">"@, close) {
                    Some(gt) => gt + 1,
                    None => s.len() as int,
                },
                None => s.len() as int,
            };
            trim_spec(trim_spec(s.take(start)) + " [pasted content] "@ + trim_spec(s.skip(end)))
        },
    }
}

fn without_pasted_exec(s: &[char]) -> (r: Vec<char>)
    ensures
        r@ == without_pasted(s@),
{
    let start = match find_at_exec(s, &chars_of("<pasted_content"), 0) {
        None => {
            return crate::text::copy_chars(s);
        },
        Some(i) => i,
    };
    proof {
        let i = choose|i: int| first_at_or_after(s@, "<pasted_content"@, 0, i);
        assert(occurs_at(s@, "<pasted_content"@, i));
    }
    let end = match find_at_exec(s, &chars_of("</pasted_content"), start) {
        Some(close) => {
            proof {
                let i = choose|i: int| first_at_or_after(s@, "</pasted_content"@, start as int, i);
                assert(occurs_at(s@, "</pasted_content"@, i));
            }
            match find_at_exec(s, &chars_of(">"), close) {
                Some(gt) => {
                    proof {
                        reveal_strlit(">");
                        let i = choose|i: int| first_at_or_after(s@, ">"@, close as int, i);
                        assert(first_at_or_after(s@, ">"@, close as int, i));
                        assert(i == gt);
                        assert(occurs_at(s@, ">"@, gt as int));
                        assert(gt + 1 <= s@.len());
                        assert(s@.len() == s.len());
                    }
                    gt + 1
                },
                None => s.len(),
            }
        },
        None => s.len(),
    };
    let a = slice(s, 0, start);
    let b = slice(s, end, s.len());
    proof {
        assert(a@ =~= s@.take(start as int));
        assert(b@ =~= s@.skip(end as int));
    }
    let head = trim(&a);
    let tail = trim(&b);
    let mut v = head;
    push_text(&mut v, " [pasted content] ");
    push_all(&mut v, &tail);
    trim(&v)
}

/// Typed prompts, each on one line, in order.
pub open spec fn prompts_spec(evs: Seq<Event>) -> Seq<Seq<char>>
    decreases evs.len(),
{
    if evs.len() == 0 {
        seq![]
    } else {
        let e = evs.last();
        prompts_spec(evs.drop_last()) + if e.event@ == "prompt"@ && e.data.at("text"@).str_of() is Some && is_ask(
            e.data.at("text"@).str_of()->0,
        ) {
            seq![one_line(without_pasted(e.data.at("text"@).str_of()->0))]
        } else {
            Seq::<Seq<char>>::empty()
        }
    }
}

fn is_ask_exec(s: &[char]) -> (r: bool)
    ensures
        r == is_ask(s@),
{
    !is_blank(s) && !starts_with(s, &chars_of("/")) && !harness_turn_exec(s) && !(split_whitespace(s).len() < 3)
}

/// Typed prompts. Slash commands and what the harness delivers as a user
/// turn (subagent reports, task notices, command echoes) are not asks.
pub fn prompts(events: &[Event]) -> (r: Vec<String>)
    ensures
        r.deep_view() == prompts_spec(events@),
{
    let mut out: Vec<String> = Vec::new();
    let mut i: usize = 0;
    proof {
        assert(events@.take(0) =~= Seq::<Event>::empty());
        assert(out.deep_view() =~= Seq::<Seq<char>>::empty());
    }
    while i < events.len()
        invariant
            i <= events@.len(),
            out.deep_view() == prompts_spec(events@.take(i as int)),
        decreases events@.len() - i,
    {
        let e = &events[i];
        proof {
            assert(events@.take(i + 1).drop_last() =~= events@.take(i as int));
            assert(events@.take(i + 1).last() == *e);
        }
        let ghost before = out.deep_view();
        if str_eq(e.event.as_str(), "prompt") {
            match e.data.str_at("text") {
                Some(t) => {
                    let tc = chars_of(t);
                    if is_ask_exec(&tc) {
                        let w = without_pasted_exec(&tc);
                        let l = one_line_exec(&w);
                        out.push(string_of(&l));
                        proof {
                            assert(out.deep_view() =~= before + seq![l@]);
                        }
                    } else {
                        proof {
                            assert(out.deep_view() =~= before + Seq::<Seq<char>>::empty());
                        }
                    }
                },
                None => {
                    proof {
                        assert(out.deep_view() =~= before + Seq::<Seq<char>>::empty());
                    }
                },
            }
        } else {
            proof {
                assert(out.deep_view() =~= before + Seq::<Seq<char>>::empty());
            }
        }
        i += 1;
    }
    proof {
        assert(events@.take(events@.len() as int) =~= events@);
    }
    out
}

// ---------------------------------------------------------------------------
// Harness, last reply, remembered items
// ---------------------------------------------------------------------------

/// The harness the first `session_start` names, `unknown` without one.
pub open spec fn harness_spec(evs: Seq<Event>) -> Seq<char>
    decreases evs.len(),
{
    if evs.len() == 0 {
        "unknown"@
    } else if evs[0].event@ == "session_start"@ {
        match evs[0].data.at("harness"@).str_of() {
            Some(h) => h,
            None => "unknown"@,
        }
    } else {
        harness_spec(evs.drop_first())
    }
}

fn harness(events: &[Event]) -> (r: String)
    ensures
        r@ == harness_spec(events@),
{
    let mut i: usize = 0;
    proof {
        assert(events@.skip(0) =~= events@);
    }
    while i < events.len()
        invariant
            i <= events@.len(),
            harness_spec(events@.skip(i as int)) == harness_spec(events@),
        decreases events@.len() - i,
    {
        proof {
            assert(events@.skip(i as int)[0] == events@[i as int]);
            assert(events@.skip(i as int).drop_first() =~= events@.skip(i + 1));
        }
        if str_eq(events[i].event.as_str(), "session_start") {
            return match events[i].data.str_at("harness") {
                Some(h) => h.to_string(),
                None => "unknown".to_string(),
            };
        }
        i += 1;
    }
    proof {
        assert(events@.skip(events@.len() as int) =~= Seq::<Event>::empty());
    }
    "unknown".to_string()
}

/// The closing message of the last `stop` event, on one line.
pub open spec fn last_reply_spec(evs: Seq<Event>) -> Option<Seq<char>>
    decreases evs.len(),
{
    if evs.len() == 0 {
        None
    } else if evs.last().event@ == "stop"@ {
        match evs.last().data.at("last"@).str_of() {
            Some(t) => Some(one_line(t)),
            None => None,
        }
    } else {
        last_reply_spec(evs.drop_last())
    }
}

fn last_reply(events: &[Event]) -> (r: Option<String>)
    ensures
        match r {
            Some(s) => last_reply_spec(events@) == Some(s@),
            None => last_reply_spec(events@) is None,
        },
{
    let mut n = events.len();
    proof {
        assert(events@.take(n as int) =~= events@);
    }
    while n > 0
        invariant
            n <= events@.len(),
            last_reply_spec(events@.take(n as int)) == last_reply_spec(events@),
        decreases n,
    {
        proof {
            assert(events@.take(n as int).last() == events@[n - 1]);
            assert(events@.take(n as int).drop_last() =~= events@.take(n - 1));
        }
        if str_eq(events[n - 1].event.as_str(), "stop") {
            return match events[n - 1].data.str_at("last") {
                Some(t) => {
                    let l = one_line_exec(&chars_of(t));
                    Some(string_of(&l))
                },
                None => None,
            };
        }
        n -= 1;
    }
    None
}

/// `kind: path` for each item remembered during the session.
pub open spec fn remembered_spec(evs: Seq<Event>) -> Seq<Seq<char>>
    decreases evs.len(),
{
    if evs.len() == 0 {
        seq![]
    } else {
        let e = evs.last();
        remembered_spec(evs.drop_last()) + if e.event@ == "remember"@ && e.data.at("kind"@).str_of() is Some
            && e.data.at("path"@).str_of() is Some {
            seq![e.data.at("kind"@).str_of()->0 + ": "@ + e.data.at("path"@).str_of()->0]
        } else {
            Seq::<Seq<char>>::empty()
        }
    }
}

fn remembered(events: &[Event]) -> (r: Vec<String>)
    ensures
        r.deep_view() == remembered_spec(events@),
{
    let mut out: Vec<String> = Vec::new();
    let mut i: usize = 0;
    proof {
        assert(events@.take(0) =~= Seq::<Event>::empty());
        assert(out.deep_view() =~= Seq::<Seq<char>>::empty());
    }
    while i < events.len()
        invariant
            i <= events@.len(),
            out.deep_view() == remembered_spec(events@.take(i as int)),
        decreases events@.len() - i,
    {
        let e = &events[i];
        proof {
            assert(events@.take(i + 1).drop_last() =~= events@.take(i as int));
            assert(events@.take(i + 1).last() == *e);
        }
        let ghost before = out.deep_view();
        let mut added = false;
        if str_eq(e.event.as_str(), "remember") {
            match (e.data.str_at("kind"), e.data.str_at("path")) {
                (Some(k), Some(p)) => {
                    let mut v = chars_of(k);
                    push_text(&mut v, ": ");
                    push_text(&mut v, p);
                    out.push(string_of(&v));
                    added = true;
                    proof {
                        assert(out.deep_view() =~= before + seq![v@]);
                    }
                },
                _ => {},
            }
        }
        if !added {
            proof {
                assert(out.deep_view() =~= before + Seq::<Seq<char>>::empty());
            }
        }
        i += 1;
    }
    proof {
        assert(events@.take(events@.len() as int) =~= events@);
    }
    out
}


// ---------------------------------------------------------------------------
// Files
// ---------------------------------------------------------------------------

/// A harness-reported path as the repo names it, when a root is given.
pub open spec fn rel_of(root: Option<Seq<char>>, f: Seq<char>) -> Seq<char> {
    match root {
        Some(r) => rel_spec(r, f),
        None => f,
    }
}

/// A path left absolute lies outside the repo: the agent's scratch and
/// notes, which the next session cannot use.
pub open spec fn in_repo(f: Seq<char>) -> bool {
    !(f.len() > 0 && f[0] == '/')
}

pub open spec fn file_of(e: Event, root: Option<Seq<char>>) -> Option<Seq<char>> {
    match e.data.at("file"@).str_of() {
        Some(f) => if in_repo(rel_of(root, f)) {
            Some(rel_of(root, f))
        } else {
            None
        },
        None => None,
    }
}

/// The repo files of the edits, one per edit, in order.
pub open spec fn edit_files(evs: Seq<Event>, root: Option<Seq<char>>) -> Seq<Seq<char>>
    decreases evs.len(),
{
    if evs.len() == 0 {
        seq![]
    } else {
        let e = evs.last();
        edit_files(evs.drop_last(), root) + if is_edit_event(e) && file_of(e, root) is Some {
            seq![file_of(e, root)->0]
        } else {
            Seq::<Seq<char>>::empty()
        }
    }
}

pub open spec fn is_read(e: Event) -> bool {
    e.event@ == "tool"@ && e.data.at("tool"@).str_of() == Some("Read"@)
}

/// The repo files read among `evs`, one per read, in order.
pub open spec fn read_files(evs: Seq<Event>, root: Option<Seq<char>>) -> Seq<Seq<char>>
    decreases evs.len(),
{
    if evs.len() == 0 {
        seq![]
    } else {
        let e = evs.last();
        read_files(evs.drop_last(), root) + if is_read(e) && file_of(e, root) is Some {
            seq![file_of(e, root)->0]
        } else {
            Seq::<Seq<char>>::empty()
        }
    }
}

/// Where `x` is among the names of `d`, or -1.
pub open spec fn name_at(d: Seq<(Seq<char>, nat)>, x: Seq<char>) -> int
    decreases d.len(),
{
    if d.len() == 0 {
        -1
    } else if d.last().0 == x {
        d.len() - 1
    } else {
        name_at(d.drop_last(), x)
    }
}

/// Distinct values with their counts, in first-seen order.
pub open spec fn distinct(items: Seq<Seq<char>>) -> Seq<(Seq<char>, nat)>
    decreases items.len(),
{
    if items.len() == 0 {
        seq![]
    } else {
        let d = distinct(items.drop_last());
        let x = items.last();
        let k = name_at(d, x);
        if k >= 0 {
            d.update(k, (x, d[k].1 + 1))
        } else {
            d.push((x, 1nat))
        }
    }
}

pub open spec fn count_keys(d: Seq<(Seq<char>, nat)>) -> Seq<u128> {
    d.map_values(|p: (Seq<char>, nat)| p.1 as u128)
}

/// `r` is `items` tallied: distinct values with their counts, most
/// frequent first, ties in first-seen order.
pub open spec fn tallied(items: Seq<Seq<char>>, r: Seq<(Seq<char>, nat)>) -> bool {
    exists|o: Seq<usize>|
        #[trigger] num_order(o, count_keys(distinct(items)), true) && r == o.map_values(
            |k: usize| distinct(items)[k as int],
        )
}

pub open spec fn tally_view(v: Seq<(String, usize)>) -> Seq<(Seq<char>, nat)> {
    v.map_values(|p: (String, usize)| (p.0@, p.1 as nat))
}

proof fn lemma_name_at(d: Seq<(Seq<char>, nat)>, x: Seq<char>)
    ensures
        -1 <= name_at(d, x) < d.len(),
        name_at(d, x) >= 0 ==> d[name_at(d, x)].0 == x,
    decreases d.len(),
{
    if d.len() > 0 {
        lemma_name_at(d.drop_last(), x);
    }
}

proof fn lemma_distinct_len(items: Seq<Seq<char>>)
    ensures
        distinct(items).len() <= items.len(),
        forall|k: int| 0 <= k < distinct(items).len() ==> (#[trigger] distinct(items)[k]).1 <= items.len(),
        forall|k: int| 0 <= k < distinct(items).len() ==> (#[trigger] distinct(items)[k]).1 >= 1,
    decreases items.len(),
{
    if items.len() > 0 {
        lemma_distinct_len(items.drop_last());
        lemma_name_at(distinct(items.drop_last()), items.last());
    }
}


proof fn lemma_name_at_none(d: Seq<(Seq<char>, nat)>, x: Seq<char>)
    requires
        name_at(d, x) < 0,
    ensures
        forall|k: int| 0 <= k < d.len() ==> d[k].0 != x,
    decreases d.len(),
{
    if d.len() > 0 {
        lemma_name_at_none(d.drop_last(), x);
        assert forall|k: int| 0 <= k < d.len() implies d[k].0 != x by {
            if k < d.len() - 1 {
                assert(d.drop_last()[k] == d[k]);
            }
        }
    }
}

/// `distinct` counts each value as often as it occurs, names each value
/// once, and names every value that occurs.
proof fn lemma_distinct_counts(items: Seq<Seq<char>>)
    ensures
        forall|k: int|
            0 <= k < distinct(items).len() ==> (#[trigger] distinct(items)[k]).1 == crate::likely::count_of(
                items,
                distinct(items)[k].0,
            ),
        forall|j: int, k: int|
            0 <= j < k < distinct(items).len() ==> (#[trigger] distinct(items)[j]).0 != (#[trigger] distinct(
                items,
            )[k]).0,
        forall|f: Seq<char>|
            #[trigger] crate::likely::count_of(items, f) > 0 ==> exists|k: int|
                0 <= k < distinct(items).len() && distinct(items)[k].0 == f,
    decreases items.len(),
{
    if items.len() == 0 {
        assert forall|f: Seq<char>| #[trigger] crate::likely::count_of(items, f) == 0 by {
            reveal(Seq::filter);
        }
    } else {
        let s = items.drop_last();
        let x = items.last();
        lemma_distinct_counts(s);
        assert(s.push(x) =~= items);
        let d0 = distinct(s);
        let d = distinct(items);
        lemma_name_at(d0, x);
        let k0 = name_at(d0, x);
        assert forall|f: Seq<char>| #[trigger] crate::likely::count_of(items, f) == crate::likely::count_of(s, f) + if x == f {
            1nat
        } else {
            0nat
        } by {
            crate::likely::lemma_count_push(s, x, f);
        }
        if k0 >= 0 {
            assert forall|k: int| 0 <= k < d.len() implies (#[trigger] d[k]).1 == crate::likely::count_of(items, d[k].0) by {
                assert(crate::likely::count_of(items, d[k].0) == crate::likely::count_of(s, d[k].0) + if x == d[k].0 {
                    1nat
                } else {
                    0nat
                });
                if k != k0 {
                    assert(d[k] == d0[k]);
                    if k < k0 {
                        assert(d0[k].0 != d0[k0].0);
                    } else {
                        assert(d0[k0].0 != d0[k].0);
                    }
                }
            }
            assert forall|j: int, k: int| 0 <= j < k < d.len() implies (#[trigger] d[j]).0 != (#[trigger] d[k]).0 by {
                assert(d0[j].0 != d0[k].0);
            }
            assert forall|f: Seq<char>| #[trigger] crate::likely::count_of(items, f) > 0 implies exists|k: int|
                0 <= k < d.len() && d[k].0 == f by {
                assert(crate::likely::count_of(items, f) == crate::likely::count_of(s, f) + if x == f {
                    1nat
                } else {
                    0nat
                });
                if x == f {
                    assert(d[k0].0 == f);
                } else {
                    assert(crate::likely::count_of(s, f) > 0);
                    let k = choose|k: int| 0 <= k < d0.len() && d0[k].0 == f;
                    assert(d[k].0 == f);
                }
            }
        } else {
            lemma_name_at_none(d0, x);
            assert(crate::likely::count_of(s, x) == 0) by {
                if crate::likely::count_of(s, x) > 0 {
                    let k = choose|k: int| 0 <= k < d0.len() && d0[k].0 == x;
                }
            }
            assert forall|k: int| 0 <= k < d.len() implies (#[trigger] d[k]).1 == crate::likely::count_of(items, d[k].0) by {
                assert(crate::likely::count_of(items, d[k].0) == crate::likely::count_of(s, d[k].0) + if x == d[k].0 {
                    1nat
                } else {
                    0nat
                });
                if k < d0.len() {
                    assert(d[k] == d0[k]);
                }
            }
            assert forall|j: int, k: int| 0 <= j < k < d.len() implies (#[trigger] d[j]).0 != (#[trigger] d[k]).0 by {
                if k == d0.len() {
                    assert(d[j] == d0[j]);
                } else {
                    assert(d0[j].0 != d0[k].0);
                }
            }
            assert forall|f: Seq<char>| #[trigger] crate::likely::count_of(items, f) > 0 implies exists|k: int|
                0 <= k < d.len() && d[k].0 == f by {
                assert(crate::likely::count_of(items, f) == crate::likely::count_of(s, f) + if x == f {
                    1nat
                } else {
                    0nat
                });
                if x == f {
                    assert(d[d0.len() as int].0 == f);
                } else {
                    assert(crate::likely::count_of(s, f) > 0);
                    let k = choose|k: int| 0 <= k < d0.len() && d0[k].0 == f;
                    assert(d[k].0 == f);
                }
            }
        }
    }
}

/// Where `f` first occurs in `items`, or -1.
spec fn first_seen(items: Seq<Seq<char>>, f: Seq<char>) -> int
    decreases items.len(),
{
    if items.len() == 0 {
        -1
    } else {
        let p = first_seen(items.drop_last(), f);
        if p >= 0 {
            p
        } else if items.last() == f {
            items.len() - 1
        } else {
            -1
        }
    }
}

proof fn lemma_first_seen(items: Seq<Seq<char>>, f: Seq<char>)
    ensures
        -1 <= first_seen(items, f) < items.len(),
        first_seen(items, f) >= 0 ==> items[first_seen(items, f)] == f,
        forall|i: int|
            0 <= i < items.len() && (first_seen(items, f) < 0 || i < first_seen(items, f)) ==> #[trigger] items[i]
                != f,
        first_seen(items, f) >= 0 <==> crate::likely::count_of(items, f) > 0,
    decreases items.len(),
{
    if items.len() == 0 {
        reveal(Seq::filter);
    } else {
        let s = items.drop_last();
        lemma_first_seen(s, f);
        assert(s.push(items.last()) =~= items);
        crate::likely::lemma_count_push(s, items.last(), f);
        assert forall|i: int| 0 <= i < s.len() implies items[i] == #[trigger] s[i] by {}
    }
}

/// `distinct` names values in the order they first occur.
proof fn lemma_distinct_first(items: Seq<Seq<char>>)
    ensures
        forall|k: int| 0 <= k < distinct(items).len() ==> 0 <= #[trigger] first_seen(items, distinct(items)[k].0),
        forall|a: int, b: int|
            0 <= a < b < distinct(items).len() ==> first_seen(items, (#[trigger] distinct(items)[a]).0) < first_seen(
                items,
                (#[trigger] distinct(items)[b]).0,
            ),
    decreases items.len(),
{
    if items.len() > 0 {
        let s = items.drop_last();
        let x = items.last();
        lemma_distinct_first(s);
        lemma_distinct_counts(s);
        let d0 = distinct(s);
        let d = distinct(items);
        lemma_name_at(d0, x);
        let k0 = name_at(d0, x);
        assert forall|k: int| 0 <= k < d0.len() implies first_seen(items, #[trigger] d0[k].0) == first_seen(s, d0[k].0)
            && first_seen(s, d0[k].0) < s.len() by {
            lemma_first_seen(s, d0[k].0);
        }
        if k0 >= 0 {
            assert forall|k: int| 0 <= k < d.len() implies #[trigger] d[k].0 == d0[k].0 by {}
        } else {
            lemma_name_at_none(d0, x);
            lemma_first_seen(s, x);
            if first_seen(s, x) >= 0 {
                let k = choose|k: int| 0 <= k < d0.len() && d0[k].0 == x;
            }
            assert(first_seen(items, x) == s.len());
            assert forall|k: int| 0 <= k < d0.len() implies #[trigger] d[k] == d0[k] by {}
            assert(d[d0.len() as int].0 == x);
        }
    }
}

/// The counts of `r`, added up.
pub open spec fn count_total(r: Seq<(Seq<char>, nat)>) -> nat
    decreases r.len(),
{
    if r.len() == 0 {
        0
    } else {
        count_total(r.drop_last()) + r.last().1
    }
}

/// How often the names of `r` occur in `items`, added up.
spec fn occurrences(r: Seq<(Seq<char>, nat)>, items: Seq<Seq<char>>) -> nat
    decreases r.len(),
{
    if r.len() == 0 {
        0
    } else {
        occurrences(r.drop_last(), items) + crate::likely::count_of(items, r.last().0)
    }
}

spec fn names_unique(r: Seq<(Seq<char>, nat)>) -> bool {
    forall|j: int, k: int| 0 <= j < k < r.len() ==> (#[trigger] r[j]).0 != (#[trigger] r[k]).0
}

proof fn lemma_total_is_occurrences(r: Seq<(Seq<char>, nat)>, items: Seq<Seq<char>>)
    requires
        forall|k: int| 0 <= k < r.len() ==> (#[trigger] r[k]).1 == crate::likely::count_of(items, r[k].0),
    ensures
        count_total(r) == occurrences(r, items),
    decreases r.len(),
{
    if r.len() > 0 {
        let p = r.drop_last();
        assert forall|k: int| 0 <= k < p.len() implies (#[trigger] p[k]).1 == crate::likely::count_of(items, p[k].0) by {
            assert(p[k] == r[k]);
        }
        lemma_total_is_occurrences(p, items);
    }
}

proof fn lemma_occurrences_push(r: Seq<(Seq<char>, nat)>, s: Seq<Seq<char>>, x: Seq<char>)
    requires
        names_unique(r),
    ensures
        occurrences(r, s.push(x)) == occurrences(r, s) + if exists|k: int| 0 <= k < r.len() && #[trigger] r[k].0 == x {
            1nat
        } else {
            0nat
        },
    decreases r.len(),
{
    if r.len() == 0 {
        reveal(Seq::filter);
    } else {
        let p = r.drop_last();
        assert(names_unique(p)) by {
            assert forall|j: int, k: int| 0 <= j < k < p.len() implies (#[trigger] p[j]).0 != (#[trigger] p[k]).0 by {
                assert(p[j] == r[j] && p[k] == r[k]);
            }
        }
        lemma_occurrences_push(p, s, x);
        crate::likely::lemma_count_push(s, x, r.last().0);
        if exists|k: int| 0 <= k < r.len() && #[trigger] r[k].0 == x {
            let k = choose|k: int| 0 <= k < r.len() && #[trigger] r[k].0 == x;
            if k < p.len() {
                assert(p[k].0 == x);
                assert(r[k].0 != r[r.len() - 1].0);
            }
        } else {
            assert forall|k: int| 0 <= k < p.len() implies #[trigger] p[k].0 != x by {
                assert(p[k] == r[k]);
            }
            assert(r[r.len() - 1].0 != x);
        }
    }
}

/// With names each given once, and every item among them, the names
/// occur as often as there are items.
proof fn lemma_occurrences_all(r: Seq<(Seq<char>, nat)>, items: Seq<Seq<char>>)
    requires
        names_unique(r),
        forall|i: int| 0 <= i < items.len() ==> exists|k: int| 0 <= k < r.len() && r[k].0 == #[trigger] items[i],
    ensures
        occurrences(r, items) == items.len(),
    decreases items.len(),
{
    if items.len() == 0 {
        lemma_occurrences_empty(r, items);
    } else {
        let s = items.drop_last();
        let x = items.last();
        assert forall|i: int| 0 <= i < s.len() implies exists|k: int| 0 <= k < r.len() && r[k].0 == #[trigger] s[i] by {
            assert(s[i] == items[i]);
        }
        lemma_occurrences_all(r, s);
        assert(s.push(x) =~= items);
        lemma_occurrences_push(r, s, x);
        assert(items[items.len() - 1] == x);
        let k = choose|k: int| 0 <= k < r.len() && r[k].0 == items[items.len() - 1];
        assert(exists|k: int| 0 <= k < r.len() && #[trigger] r[k].0 == x);
    }
}

proof fn lemma_occurrences_empty(r: Seq<(Seq<char>, nat)>, items: Seq<Seq<char>>)
    requires
        items.len() == 0,
    ensures
        occurrences(r, items) == 0,
    decreases r.len(),
{
    if r.len() > 0 {
        lemma_occurrences_empty(r.drop_last(), items);
        reveal(Seq::filter);
    }
}

/// A tally counts each file as often as it occurs among `items`, names
/// every file that occurs and no other, each once, and lists them most
/// frequent first, of equal counts the one that occurs first first. The
/// counts add up to the number of items.
pub proof fn law_tally_counts_each_occurrence(items: Seq<Seq<char>>, r: Seq<(Seq<char>, nat)>)
    requires
        tallied(items, r),
        items.len() <= usize::MAX,
    ensures
        forall|k: int| 0 <= k < r.len() ==> (#[trigger] r[k]).1 == crate::likely::count_of(items, r[k].0),
        forall|k: int| 0 <= k < r.len() ==> (#[trigger] r[k]).1 >= 1,
        count_total(r) == items.len(),
        forall|j: int, k: int| 0 <= j < k < r.len() ==> (#[trigger] r[j]).0 != (#[trigger] r[k]).0,
        forall|j: int, k: int| 0 <= j < k < r.len() ==> (#[trigger] r[j]).1 >= (#[trigger] r[k]).1,
        forall|f: Seq<char>|
            #[trigger] crate::likely::count_of(items, f) > 0 ==> exists|k: int| 0 <= k < r.len() && r[k].0 == f,
        forall|j: int, k: int|
            0 <= j < k < r.len() && (#[trigger] r[j]).1 == (#[trigger] r[k]).1 ==> exists|i: int|
                0 <= i < items.len() && #[trigger] items[i] == r[j].0 && forall|h: int|
                    0 <= h <= i ==> #[trigger] items[h] != r[k].0,
{
    let o = choose|o: Seq<usize>|
        #[trigger] num_order(o, count_keys(distinct(items)), true) && r == o.map_values(
            |k: usize| distinct(items)[k as int],
        );
    let d = distinct(items);
    lemma_distinct_counts(items);
    lemma_distinct_len(items);
    assert forall|k: int| 0 <= k < r.len() implies (#[trigger] r[k]).1 == crate::likely::count_of(items, r[k].0)
        && r[k].1 >= 1 by {
        assert(o[k] < d.len());
        assert(r[k] == d[o[k] as int]);
    }
    assert forall|j: int, k: int| 0 <= j < k < r.len() implies (#[trigger] r[j]).0 != (#[trigger] r[k]).0 by {
        assert(r[j] == d[o[j] as int]);
        assert(r[k] == d[o[k] as int]);
        assert(o[j] != o[k]) by {
            if o[j] == o[k] {
                assert(count_keys(d)[o[j] as int] == count_keys(d)[o[k] as int]);
            }
        }
        if (o[j] as int) < (o[k] as int) {
            assert(d[o[j] as int].0 != d[o[k] as int].0);
        } else {
            assert(d[o[k] as int].0 != d[o[j] as int].0);
        }
    }
    assert forall|j: int, k: int| 0 <= j < k < r.len() implies (#[trigger] r[j]).1 >= (#[trigger] r[k]).1 by {
        assert(r[j] == d[o[j] as int]);
        assert(r[k] == d[o[k] as int]);
        assert(o[j] < d.len() && o[k] < d.len());
        assert(!crate::order::num_before(count_keys(d)[o[k] as int], count_keys(d)[o[j] as int], true));
        assert(d[o[j] as int].1 <= items.len());
        assert(d[o[k] as int].1 <= items.len());
        assert(count_keys(d)[o[j] as int] == d[o[j] as int].1);
        assert(count_keys(d)[o[k] as int] == d[o[k] as int].1);
    }
    lemma_distinct_first(items);
    assert forall|j: int, k: int| 0 <= j < k < r.len() && (#[trigger] r[j]).1 == (#[trigger] r[k]).1 implies exists|i: int|
        0 <= i < items.len() && #[trigger] items[i] == r[j].0 && forall|h: int|
            0 <= h <= i ==> #[trigger] items[h] != r[k].0 by {
        assert(r[j] == d[o[j] as int]);
        assert(r[k] == d[o[k] as int]);
        assert(o[j] < d.len() && o[k] < d.len());
        assert(d[o[j] as int].1 <= items.len());
        assert(count_keys(d)[o[j] as int] == d[o[j] as int].1);
        assert(count_keys(d)[o[k] as int] == d[o[k] as int].1);
        assert(o[j] < o[k]);
        let a = o[j] as int;
        let b = o[k] as int;
        assert(first_seen(items, d[a].0) < first_seen(items, d[b].0));
        lemma_first_seen(items, d[a].0);
        lemma_first_seen(items, d[b].0);
        let i = first_seen(items, d[a].0);
        assert(items[i] == r[j].0);
        assert forall|h: int| 0 <= h <= i implies #[trigger] items[h] != r[k].0 by {}
    }
    assert forall|f: Seq<char>| #[trigger] crate::likely::count_of(items, f) > 0 implies exists|k: int|
        0 <= k < r.len() && r[k].0 == f by {
        let m = choose|m: int| 0 <= m < d.len() && d[m].0 == f;
        assert(o.contains(m as usize));
        let k = choose|k: int| 0 <= k < o.len() && o[k] == m as usize;
        assert(o[k] as int == m);
        assert(r[k] == d[o[k] as int]);
    }
    assert forall|i: int| 0 <= i < items.len() implies exists|k: int|
        0 <= k < r.len() && r[k].0 == #[trigger] items[i] by {
        lemma_first_seen(items, items[i]);
        assert(crate::likely::count_of(items, items[i]) > 0);
    }
    lemma_total_is_occurrences(r, items);
    lemma_occurrences_all(r, items);
}

fn name_at_exec(d: &Vec<(String, usize)>, x: &str) -> (r: Option<usize>)
    ensures
        match r {
            Some(k) => name_at(tally_view(d@), x@) == k as int,
            None => name_at(tally_view(d@), x@) == -1,
        },
{
    let ghost dv = tally_view(d@);
    let mut n = d.len();
    proof {
        assert(dv.take(n as int) =~= dv);
    }
    while n > 0
        invariant
            dv == tally_view(d@),
            n <= d@.len(),
            name_at(dv.take(n as int), x@) == name_at(dv, x@),
        decreases n,
    {
        proof {
            assert(dv.take(n as int).last() == dv[n - 1]);
            assert(dv.take(n as int).drop_last() =~= dv.take(n - 1));
        }
        if str_eq(d[n - 1].0.as_str(), x) {
            return Some(n - 1);
        }
        n -= 1;
    }
    None
}

/// Distinct values with their counts, most frequent first, ties in
/// first-seen order.
fn tally(items: &Vec<String>) -> (r: Vec<(String, usize)>)
    ensures
        tallied(items.deep_view(), tally_view(r@)),
{
    let ghost iv = items.deep_view();
    let mut counts: Vec<(String, usize)> = Vec::new();
    let mut i: usize = 0;
    proof {
        assert(iv.take(0) =~= Seq::<Seq<char>>::empty());
        assert(tally_view(counts@) =~= Seq::<(Seq<char>, nat)>::empty());
    }
    while i < items.len()
        invariant
            iv == items.deep_view(),
            i <= items@.len(),
            tally_view(counts@) == distinct(iv.take(i as int)),
        decreases items@.len() - i,
    {
        proof {
            assert(iv.take(i + 1).drop_last() =~= iv.take(i as int));
            assert(iv.take(i + 1).last() == items@[i as int]@);
            lemma_distinct_len(iv.take(i as int));
            lemma_name_at(tally_view(counts@), items@[i as int]@);
        }
        let ghost before = tally_view(counts@);
        match name_at_exec(&counts, items[i].as_str()) {
            Some(k) => {
                let c = counts[k].1;
                let name = counts[k].0.clone();
                counts.set(k, (name, c + 1));
                proof {
                    assert(tally_view(counts@) =~= before.update(k as int, (items@[i as int]@, before[k as int].1 + 1)));
                }
            },
            None => {
                counts.push((items[i].clone(), 1));
                proof {
                    assert(tally_view(counts@) =~= before.push((items@[i as int]@, 1nat)));
                }
            },
        }
        i += 1;
    }
    proof {
        assert(iv.take(items@.len() as int) =~= iv);
    }
    let ghost dv = distinct(iv);
    let mut keys: Vec<u128> = Vec::new();
    let mut j: usize = 0;
    while j < counts.len()
        invariant
            dv == tally_view(counts@),
            j <= counts@.len(),
            keys@ =~= count_keys(dv).take(j as int),
        decreases counts@.len() - j,
    {
        keys.push(counts[j].1 as u128);
        proof {
            assert(count_keys(dv).take(j + 1) =~= count_keys(dv).take(j as int).push(count_keys(dv)[j as int]));
        }
        j += 1;
    }
    proof {
        assert(count_keys(dv).take(counts@.len() as int) =~= count_keys(dv));
    }
    let o = order_by_num(&keys, true);
    let mut out: Vec<(String, usize)> = Vec::new();
    let mut k: usize = 0;
    while k < o.len()
        invariant
            dv == tally_view(counts@),
            crate::order::is_order(o@, dv.len()),
            k <= o@.len(),
            tally_view(out@) =~= o@.take(k as int).map_values(|x: usize| dv[x as int]),
        decreases o@.len() - k,
    {
        let x = o[k];
        proof {
            assert(o@[k as int] < dv.len());
        }
        let ghost before = tally_view(out@);
        out.push((counts[x].0.clone(), counts[x].1));
        proof {
            assert(dv[x as int] == (counts@[x as int].0@, counts@[x as int].1 as nat));
            assert(tally_view(out@) =~= before.push(dv[x as int]));
            assert(o@.take(k + 1) =~= o@.take(k as int).push(x));
        }
        k += 1;
    }
    proof {
        assert(o@.take(o@.len() as int) =~= o@);
        assert(num_order(o@, count_keys(distinct(iv)), true));
    }
    out
}

/// The files the agent read to orient itself before its first edit, most
/// read first, minus those it then edited, at most `HANDOFF_READ_FIRST`.
pub open spec fn read_first_of(reads: Seq<(Seq<char>, nat)>, edited: Seq<(Seq<char>, nat)>) -> Seq<Seq<char>> {
    let kept = reads.filter(|p: (Seq<char>, nat)| !exists|k: int| 0 <= k < edited.len() && edited[k].0 == p.0);
    let shown = if kept.len() <= HANDOFF_READ_FIRST {
        kept
    } else {
        kept.take(HANDOFF_READ_FIRST as int)
    };
    shown.map_values(|p: (Seq<char>, nat)| p.0)
}

fn edited_in(edited: &Vec<(String, usize)>, f: &str) -> (r: bool)
    ensures
        r == exists|k: int| 0 <= k < edited@.len() && tally_view(edited@)[k].0 == f@,
{
    let mut k: usize = 0;
    while k < edited.len()
        invariant
            k <= edited@.len(),
            forall|j: int| 0 <= j < k ==> tally_view(edited@)[j].0 != f@,
        decreases edited@.len() - k,
    {
        if str_eq(edited[k].0.as_str(), f) {
            proof {
                assert(tally_view(edited@)[k as int].0 == f@);
            }
            return true;
        }
        k += 1;
    }
    false
}

fn root_rel(root: Option<&str>, f: &str) -> (r: Vec<char>)
    ensures
        r@ == rel_of(crate::memory::opt_str(root), f@),
{
    match root {
        Some(r) => rel_chars(&chars_of(r), &chars_of(f)),
        None => chars_of(f),
    }
}

fn file_of_exec(e: &Event, root: Option<&str>) -> (r: Option<String>)
    ensures
        match r {
            Some(f) => file_of(*e, crate::memory::opt_str(root)) == Some(f@),
            None => file_of(*e, crate::memory::opt_str(root)) is None,
        },
{
    match e.data.str_at("file") {
        Some(f) => {
            let r = root_rel(root, f);
            if !(r.len() > 0 && r[0] == '/') {
                Some(string_of(&r))
            } else {
                None
            }
        },
        None => None,
    }
}

fn edit_files_exec(events: &[Event], root: Option<&str>) -> (r: Vec<String>)
    ensures
        r.deep_view() == edit_files(events@, crate::memory::opt_str(root)),
{
    let ghost rt = crate::memory::opt_str(root);
    let mut out: Vec<String> = Vec::new();
    let mut i: usize = 0;
    proof {
        assert(events@.take(0) =~= Seq::<Event>::empty());
        assert(out.deep_view() =~= Seq::<Seq<char>>::empty());
    }
    while i < events.len()
        invariant
            rt == crate::memory::opt_str(root),
            i <= events@.len(),
            out.deep_view() == edit_files(events@.take(i as int), rt),
        decreases events@.len() - i,
    {
        let e = &events[i];
        proof {
            assert(events@.take(i + 1).drop_last() =~= events@.take(i as int));
            assert(events@.take(i + 1).last() == *e);
        }
        let ghost before = out.deep_view();
        let edit = str_eq(e.event.as_str(), "tool") && match e.data.str_at("tool") {
            Some(t) => is_edit(t),
            None => false,
        };
        let mut added = false;
        if edit {
            match file_of_exec(e, root) {
                Some(f) => {
                    out.push(f);
                    added = true;
                    proof {
                        assert(out.deep_view() =~= before + seq![f@]);
                    }
                },
                None => {},
            }
        }
        if !added {
            proof {
                assert(out.deep_view() =~= before + Seq::<Seq<char>>::empty());
            }
        }
        i += 1;
    }
    proof {
        assert(events@.take(events@.len() as int) =~= events@);
    }
    out
}

fn read_files_exec(events: &[Event], upto: usize, root: Option<&str>) -> (r: Vec<String>)
    requires
        upto <= events@.len(),
    ensures
        r.deep_view() == read_files(events@.take(upto as int), crate::memory::opt_str(root)),
{
    let ghost rt = crate::memory::opt_str(root);
    let mut out: Vec<String> = Vec::new();
    let mut i: usize = 0;
    proof {
        assert(events@.take(0) =~= Seq::<Event>::empty());
        assert(out.deep_view() =~= Seq::<Seq<char>>::empty());
    }
    while i < upto
        invariant
            rt == crate::memory::opt_str(root),
            upto <= events@.len(),
            i <= upto,
            out.deep_view() == read_files(events@.take(i as int), rt),
        decreases upto - i,
    {
        let e = &events[i];
        proof {
            assert(events@.take(i + 1).drop_last() =~= events@.take(i as int));
            assert(events@.take(i + 1).last() == *e);
        }
        let ghost before = out.deep_view();
        let read = str_eq(e.event.as_str(), "tool") && match e.data.str_at("tool") {
            Some(t) => str_eq(t, "Read"),
            None => false,
        };
        let mut added = false;
        if read {
            match file_of_exec(e, root) {
                Some(f) => {
                    out.push(f);
                    added = true;
                    proof {
                        assert(out.deep_view() =~= before + seq![f@]);
                    }
                },
                None => {},
            }
        }
        if !added {
            proof {
                assert(out.deep_view() =~= before + Seq::<Seq<char>>::empty());
            }
        }
        i += 1;
    }
    out
}

fn first_edit_exec(events: &[Event]) -> (r: usize)
    ensures
        r == first_edit(events@),
{
    let mut i: usize = 0;
    proof {
        assert(events@.skip(0) =~= events@);
    }
    while i < events.len()
        invariant
            i <= events@.len(),
            i + first_edit(events@.skip(i as int)) == first_edit(events@),
        decreases events@.len() - i,
    {
        proof {
            assert(events@.skip(i as int)[0] == events@[i as int]);
            assert(events@.skip(i as int).drop_first() =~= events@.skip(i + 1));
        }
        let edit = str_eq(events[i].event.as_str(), "tool") && match events[i].data.str_at("tool") {
            Some(t) => is_edit(t),
            None => false,
        };
        if edit {
            return i;
        }
        i += 1;
    }
    proof {
        assert(events@.skip(events@.len() as int) =~= Seq::<Event>::empty());
    }
    i
}

fn read_first(events: &[Event], edited: &Vec<(String, usize)>, root: Option<&str>) -> (r: Vec<String>)
    ensures
        exists|t: Seq<(Seq<char>, nat)>|
            #[trigger] tallied(
                read_files(events@.take(first_edit(events@)), crate::memory::opt_str(root)),
                t,
            ) && r.deep_view() == read_first_of(t, tally_view(edited@)),
{
    let upto = first_edit_exec(events);
    proof {
        crate::usage::lemma_first_edit(events@);
    }
    let reads = read_files_exec(events, upto, root);
    let t = tally(&reads);
    let ghost tv = tally_view(t@);
    let ghost ev = tally_view(edited@);
    let ghost pred = |p: (Seq<char>, nat)| !exists|k: int| 0 <= k < ev.len() && ev[k].0 == p.0;
    let mut out: Vec<String> = Vec::new();
    let mut i: usize = 0;
    proof {
        assert(tv.take(0).filter(pred) =~= Seq::<(Seq<char>, nat)>::empty());
        assert(out.deep_view() =~= Seq::<Seq<char>>::empty());
    }
    while i < t.len() && out.len() < HANDOFF_READ_FIRST
        invariant
            tv == tally_view(t@),
            ev == tally_view(edited@),
            pred == (|p: (Seq<char>, nat)| !exists|k: int| 0 <= k < ev.len() && ev[k].0 == p.0),
            i <= t@.len(),
            out@.len() <= HANDOFF_READ_FIRST,
            out.deep_view() == tv.take(i as int).filter(pred).map_values(|p: (Seq<char>, nat)| p.0),
        decreases t@.len() - i,
    {
        proof {
            crate::seqs::lemma_filter_step(tv, pred, i as int);
        }
        let ghost before = out.deep_view();
        if !edited_in(edited, t[i].0.as_str()) {
            out.push(t[i].0.clone());
            proof {
                assert(out.deep_view() =~= before.push(tv[i as int].0));
                assert(tv.take(i + 1).filter(pred).map_values(|p: (Seq<char>, nat)| p.0) =~= before.push(tv[i as int].0));
            }
        }
        i += 1;
    }
    proof {
        let kept = tv.filter(pred);
        crate::seqs::lemma_filter_prefix(tv, pred, i as int);
        if out@.len() < HANDOFF_READ_FIRST {
            assert(i == t@.len());
            assert(tv.take(i as int) =~= tv);
            if kept.len() > HANDOFF_READ_FIRST {
                assert(false);
            }
            assert(out.deep_view() =~= kept.map_values(|p: (Seq<char>, nat)| p.0));
        } else {
            let f = tv.take(i as int).filter(pred);
            assert(f.len() == HANDOFF_READ_FIRST);
            assert(kept.take(HANDOFF_READ_FIRST as int) =~= f);
        }
        assert(out.deep_view() =~= read_first_of(tv, ev));
    }
    out
}


// ---------------------------------------------------------------------------
// Commands
// ---------------------------------------------------------------------------

/// An exit code in decimal, with its sign.
pub open spec fn idec(x: i32) -> Seq<char> {
    if x < 0 {
        "-"@ + dec((-(x as int)) as nat)
    } else {
        dec(x as nat)
    }
}

fn push_i32(v: &mut Vec<char>, x: i32)
    ensures
        final(v)@ == old(v)@ + idec(x),
{
    if x < 0 {
        push_text(v, "-");
        let y: i64 = 0i64 - (x as i64);
        let m: u64 = y as u64;
        proof {
            assert(m as int == -(x as int));
        }
        push_dec(v, m);
    } else {
        push_dec(v, x as u64);
    }
}

/// A command by its first three words.
pub open spec fn cmd_key(cmd: Seq<char>) -> Seq<char> {
    let w = words_of(cmd);
    join_spec(
        if w.len() <= 3 {
            w
        } else {
            w.take(3)
        },
        " "@,
    )
}

pub open spec fn cmd_text(m: OutputMeta) -> Seq<char> {
    truncate_spec(m.cmd@, HANDOFF_COMMAND_CHARS as nat)
}

pub open spec fn failing_line(m: OutputMeta) -> Seq<char> {
    "`"@ + cmd_text(m) + "` (exit "@ + idec(m.exit) + ") · relay get "@ + m.id@
}

pub open spec fn command_line(m: OutputMeta) -> Seq<char> {
    "`"@ + cmd_text(m) + "` → "@ + (if m.exit == 0 {
        "ok"@
    } else {
        "exit "@ + idec(m.exit)
    }) + " · relay get "@ + m.id@
}

/// After the `n` latest outputs (newest first): the commands seen, the
/// lines for commands and for failures, and whether the list is full.
pub open spec fn cmds_after(outs: Seq<OutputMeta>, n: int) -> (Seq<Seq<char>>, Seq<Seq<char>>, Seq<Seq<char>>, bool)
    decreases n,
{
    if n <= 0 {
        (seq![], seq![], seq![], false)
    } else {
        let (seen, c, f, done) = cmds_after(outs, n - 1);
        if done {
            (seen, c, f, done)
        } else {
            let m = outs[outs.len() - n];
            let key = cmd_key(m.cmd@);
            if seen.contains(key) {
                (seen, c, f, done)
            } else {
                let (c2, f2) = if m.exit != 0 && f.len() < HANDOFF_FAILING {
                    (c, f.push(failing_line(m)))
                } else {
                    (c.push(command_line(m)), f)
                };
                (seen.push(key), c2, f2, c2.len() + f2.len() >= HANDOFF_COMMANDS)
            }
        }
    }
}

/// Latest run of each distinct command (first three words), with exit
/// status and the id of its original: the commands, and the failures.
pub open spec fn from_outputs_spec(outs: Seq<OutputMeta>) -> (Seq<Seq<char>>, Seq<Seq<char>>) {
    let (_, c, f, _) = cmds_after(outs, outs.len() as int);
    (c, f)
}

proof fn lemma_cmds_done(outs: Seq<OutputMeta>, a: int, b: int)
    requires
        0 <= a <= b,
        cmds_after(outs, a).3,
    ensures
        cmds_after(outs, b) == cmds_after(outs, a),
    decreases b - a,
{
    if b > a {
        lemma_cmds_done(outs, a, b - 1);
    }
}

fn has_key(seen: &Vec<Vec<char>>, key: &Vec<char>) -> (r: bool)
    ensures
        r == seen.deep_view().contains(key@),
{
    let ghost sv = seen.deep_view();
    let mut i: usize = 0;
    while i < seen.len()
        invariant
            sv == seen.deep_view(),
            i <= seen@.len(),
            forall|j: int| 0 <= j < i ==> sv[j] != key@,
        decreases seen@.len() - i,
    {
        proof {
            assert(sv[i as int] == seen@[i as int]@);
        }
        if chars_eq(&seen[i], key) {
            return true;
        }
        i += 1;
    }
    false
}

fn cmd_key_exec(cmd: &str) -> (r: Vec<char>)
    ensures
        r@ == cmd_key(cmd@),
{
    let w = split_whitespace(&chars_of(cmd));
    let ghost wv = w.deep_view();
    let mut first: Vec<Vec<char>> = Vec::new();
    let mut i: usize = 0;
    while i < w.len() && i < 3
        invariant
            wv == w.deep_view(),
            i <= w@.len(),
            i <= 3,
            first.deep_view() =~= wv.take(i as int),
        decreases w@.len() - i,
    {
        let c = crate::text::copy_chars(&w[i]);
        let ghost before = first.deep_view();
        first.push(c);
        proof {
            assert(c.deep_view() =~= c@);
            assert(wv[i as int] == w@[i as int]@);
            assert(first.deep_view() =~= before.push(c@));
        }
        i += 1;
    }
    proof {
        if wv.len() <= 3 {
            assert(wv.take(i as int) =~= wv);
        }
    }
    join(&first, &chars_of(" "))
}

fn commands_from_outputs(outs: &[OutputMeta]) -> (r: (Vec<String>, Vec<String>))
    ensures
        (r.0.deep_view(), r.1.deep_view()) == from_outputs_spec(outs@),
{
    let mut seen: Vec<Vec<char>> = Vec::new();
    let mut commands: Vec<String> = Vec::new();
    let mut failing: Vec<String> = Vec::new();
    let mut done = false;
    let mut n: usize = 0;
    proof {
        assert(seen.deep_view() =~= Seq::<Seq<char>>::empty());
        assert(commands.deep_view() =~= Seq::<Seq<char>>::empty());
        assert(failing.deep_view() =~= Seq::<Seq<char>>::empty());
    }
    while n < outs.len() && !done
        invariant
            n <= outs@.len(),
            (seen.deep_view(), commands.deep_view(), failing.deep_view(), done) == cmds_after(outs@, n as int),
        decreases outs@.len() - n,
    {
        let m = &outs[outs.len() - 1 - n];
        proof {
            assert(outs@[outs@.len() - (n + 1)] == *m);
        }
        let key = cmd_key_exec(m.cmd.as_str());
        if !has_key(&seen, &key) {
            let ghost s0 = seen.deep_view();
            let ghost c0 = commands.deep_view();
            let ghost f0 = failing.deep_view();
            seen.push(key);
            proof {
                assert(key.deep_view() =~= key@);
                assert(seen.deep_view() =~= s0.push(key@));
            }
            let cmd = truncate_chars(&chars_of(m.cmd.as_str()), HANDOFF_COMMAND_CHARS);
            if m.exit != 0 && failing.len() < HANDOFF_FAILING {
                let mut v = chars_of("`");
                push_all(&mut v, &cmd);
                push_text(&mut v, "` (exit ");
                push_i32(&mut v, m.exit);
                push_text(&mut v, ") · relay get ");
                push_text(&mut v, m.id.as_str());
                failing.push(string_of(&v));
                proof {
                    assert(v@ =~= failing_line(*m));
                    assert(failing.deep_view() =~= f0.push(v@));
                }
            } else {
                let mut v = chars_of("`");
                push_all(&mut v, &cmd);
                push_text(&mut v, "` → ");
                if m.exit == 0 {
                    push_text(&mut v, "ok");
                } else {
                    push_text(&mut v, "exit ");
                    push_i32(&mut v, m.exit);
                }
                push_text(&mut v, " · relay get ");
                push_text(&mut v, m.id.as_str());
                commands.push(string_of(&v));
                proof {
                    assert(v@ =~= command_line(*m));
                    assert(commands.deep_view() =~= c0.push(v@));
                }
            }
            done = (commands.len() as u128) + (failing.len() as u128) >= HANDOFF_COMMANDS as u128;
        }
        n += 1;
    }
    proof {
        if done {
            lemma_cmds_done(outs@, n as int, outs@.len() as int);
        }
    }
    (commands, failing)
}

pub open spec fn is_bash(e: Event) -> bool {
    e.event@ == "tool"@ && e.data.at("tool"@).str_of() == Some("Bash"@)
}

/// The shell commands of the `n` latest events, newest first.
pub open spec fn bash_lines(evs: Seq<Event>, n: int) -> Seq<Seq<char>>
    decreases n,
{
    if n <= 0 {
        seq![]
    } else {
        let e = evs[evs.len() - n];
        bash_lines(evs, n - 1) + if is_bash(e) && e.data.at("command"@).str_of() is Some {
            seq!["`"@ + truncate_spec(e.data.at("command"@).str_of()->0, HANDOFF_COMMAND_CHARS as nat) + "`"@]
        } else {
            Seq::<Seq<char>>::empty()
        }
    }
}

/// Without the output store there are no exit codes, only what hooks
/// saw: the latest shell commands, newest first.
pub open spec fn from_events_spec(evs: Seq<Event>) -> Seq<Seq<char>> {
    let b = bash_lines(evs, evs.len() as int);
    if b.len() <= HANDOFF_COMMANDS {
        b
    } else {
        b.take(HANDOFF_COMMANDS as int)
    }
}

proof fn lemma_bash_prefix(evs: Seq<Event>, a: int, b: int)
    requires
        0 <= a <= b,
    ensures
        bash_lines(evs, a).len() <= bash_lines(evs, b).len(),
        bash_lines(evs, b).take(bash_lines(evs, a).len() as int) == bash_lines(evs, a),
    decreases b - a,
{
    if b > a {
        lemma_bash_prefix(evs, a, b - 1);
        let x = bash_lines(evs, a);
        let y = bash_lines(evs, b - 1);
        let z = bash_lines(evs, b);
        assert(z.take(y.len() as int) =~= y);
        assert(z.take(x.len() as int) =~= y.take(x.len() as int));
    } else {
        assert(bash_lines(evs, a).take(bash_lines(evs, a).len() as int) =~= bash_lines(evs, a));
    }
}

fn commands_from_events(events: &[Event]) -> (r: Vec<String>)
    ensures
        r.deep_view() == from_events_spec(events@),
{
    let mut out: Vec<String> = Vec::new();
    let mut n: usize = 0;
    proof {
        assert(out.deep_view() =~= Seq::<Seq<char>>::empty());
    }
    while n < events.len() && out.len() < HANDOFF_COMMANDS
        invariant
            n <= events@.len(),
            out.deep_view() == bash_lines(events@, n as int),
            out@.len() <= HANDOFF_COMMANDS,
        decreases events@.len() - n,
    {
        let e = &events[events.len() - 1 - n];
        proof {
            assert(events@[events@.len() - (n + 1)] == *e);
        }
        let ghost before = out.deep_view();
        let bash = str_eq(e.event.as_str(), "tool") && match e.data.str_at("tool") {
            Some(t) => str_eq(t, "Bash"),
            None => false,
        };
        let mut added = false;
        if bash {
            match e.data.str_at("command") {
                Some(c) => {
                    let mut v = chars_of("`");
                    let t = truncate_chars(&chars_of(c), HANDOFF_COMMAND_CHARS);
                    push_all(&mut v, &t);
                    push_text(&mut v, "`");
                    out.push(string_of(&v));
                    added = true;
                    proof {
                        assert(out.deep_view() =~= before + seq![v@]);
                    }
                },
                None => {},
            }
        }
        if !added {
            proof {
                assert(out.deep_view() =~= before + Seq::<Seq<char>>::empty());
            }
        }
        n += 1;
    }
    proof {
        lemma_bash_prefix(events@, n as int, events@.len() as int);
        let full = bash_lines(events@, events@.len() as int);
        if out@.len() >= HANDOFF_COMMANDS {
            assert(full.take(HANDOFF_COMMANDS as int) =~= out.deep_view());
        } else {
            assert(n == events@.len());
        }
    }
    out
}

// ---------------------------------------------------------------------------
// The summary
// ---------------------------------------------------------------------------

pub open spec fn opt_string(o: Option<String>) -> Option<Seq<char>> {
    match o {
        Some(s) => Some(s@),
        None => None,
    }
}

/// `s` is what `collect` makes of the events and stored outputs.
pub open spec fn collected(
    s: Summary,
    evs: Seq<Event>,
    outs: Seq<OutputMeta>,
    root: Option<Seq<char>>,
    now: Seq<char>,
) -> bool {
    &&& s.started@ == if evs.len() > 0 {
        evs[0].ts@
    } else {
        now
    }
    &&& s.harness@ == harness_spec(evs)
    &&& s.prompts.deep_view() == prompts_spec(evs)
    &&& opt_string(s.last_reply) == last_reply_spec(evs)
    &&& tallied(edit_files(evs, root), tally_view(s.files@))
    &&& exists|t: Seq<(Seq<char>, nat)>|
        #[trigger] tallied(read_files(evs.take(first_edit(evs)), root), t) && s.read_first.deep_view()
            == read_first_of(t, tally_view(s.files@))
    &&& s.remembered.deep_view() == remembered_spec(evs)
    &&& if outs.len() == 0 {
        s.commands.deep_view() == from_events_spec(evs) && s.failing@.len() == 0
    } else {
        (s.commands.deep_view(), s.failing.deep_view()) == from_outputs_spec(outs)
    }
}

/// Edited files, most edited first.
pub fn files_touched(events: &[Event], root: Option<&str>) -> (r: Vec<(String, usize)>)
    ensures
        tallied(edit_files(events@, crate::memory::opt_str(root)), tally_view(r@)),
{
    let edits = edit_files_exec(events, root);
    tally(&edits)
}

impl Summary {
    /// What a session did. `root` turns a harness-reported path into a
    /// repo-relative one (none keeps paths as reported); `now` stands in
    /// for the start of a session with no events.
    pub fn collect(events: &[Event], outs: &[OutputMeta], root: Option<&str>, now: &str) -> (s: Summary)
        ensures
            collected(s, events@, outs@, crate::memory::opt_str(root), now@),
    {
        let (commands, failing) = if outs.len() == 0 {
            let v: Vec<String> = Vec::new();
            proof {
                assert(v@.len() == 0);
            }
            (commands_from_events(events), v)
        } else {
            commands_from_outputs(outs)
        };
        let edits = edit_files_exec(events, root);
        let files = tally(&edits);
        let read_first = read_first(events, &files, root);
        let started = if events.len() > 0 {
            events[0].ts.clone()
        } else {
            now.to_string()
        };
        Summary {
            started,
            harness: harness(events),
            prompts: prompts(events),
            last_reply: last_reply(events),
            read_first,
            files,
            remembered: remembered(events),
            commands,
            failing,
        }
    }
}

} // verus!
