//! Context spent per session, from the spool. The number memory has to
//! move is orientation: tokens of tool output the agent read before its
//! first edit. Comparing sessions that started with a brief against those
//! that did not says whether the brief pays for itself.

use vstd::prelude::*;

use crate::fmt::{est_tokens, est_tokens_spec};
use crate::json::Json;
use crate::sort::{ascending, sort_u64};
use crate::spool::Event;
use crate::text::str_eq;

verus! {

pub open spec fn is_edit_spec(tool: Seq<char>) -> bool {
    tool == "Write"@ || tool == "Edit"@ || tool == "MultiEdit"@ || tool == "NotebookEdit"@
}

/// The tools that change a file.
pub fn is_edit(tool: &str) -> (r: bool)
    ensures
        r == is_edit_spec(tool@),
{
    str_eq(tool, "Write") || str_eq(tool, "Edit") || str_eq(tool, "MultiEdit") || str_eq(
        tool,
        "NotebookEdit",
    )
}

/// Estimated tokens of every string inside a JSON value.
pub open spec fn json_tokens(v: Json) -> nat
    decreases v,
{
    match v {
        Json::Str(s) => est_tokens_spec(s@),
        Json::Array(a) => items_tokens(a@),
        Json::Object(o) => members_tokens(o@),
        _ => 0,
    }
}

pub open spec fn items_tokens(a: Seq<Json>) -> nat
    decreases a,
{
    if a.len() == 0 {
        0
    } else {
        items_tokens(a.drop_last()) + json_tokens(a.last())
    }
}

pub open spec fn members_tokens(o: Seq<(String, Json)>) -> nat
    decreases o,
{
    if o.len() == 0 {
        0
    } else {
        members_tokens(o.drop_last()) + json_tokens(o.last().1)
    }
}

/// Tokens of every string inside a tool response: the text the agent got.
/// Saturates at `usize::MAX`.
pub fn response_tokens(v: &Json) -> (n: usize)
    ensures
        n == if json_tokens(*v) < usize::MAX {
            json_tokens(*v)
        } else {
            usize::MAX as nat
        },
    decreases *v,
{
    match v {
        Json::Str(s) => est_tokens(s.as_str()),
        Json::Array(a) => {
            let mut n: usize = 0;
            let mut i: usize = 0;
            while i < a.len()
                invariant
                    *v == Json::Array(*a),
                    i <= a.len(),
                    n == if items_tokens(a@.take(i as int)) < usize::MAX {
                        items_tokens(a@.take(i as int))
                    } else {
                        usize::MAX as nat
                    },
                decreases a.len() - i,
            {
                proof {
                    assert(a@.take(i + 1).drop_last() =~= a@.take(i as int));
                    assert(decreases_to!(*v => (*v)->Array_0));
                    assert((*v)->Array_0 == *a);
                    assert(decreases_to!(*a => a@));
                    assert(decreases_to!(a@ => a@[i as int]));
                }
                let t = response_tokens(&a[i]);
                n = n.saturating_add(t);
                i += 1;
            }
            assert(a@.take(a.len() as int) =~= a@);
            n
        },
        Json::Object(o) => {
            let mut n: usize = 0;
            let mut i: usize = 0;
            while i < o.len()
                invariant
                    *v == Json::Object(*o),
                    i <= o.len(),
                    n == if members_tokens(o@.take(i as int)) < usize::MAX {
                        members_tokens(o@.take(i as int))
                    } else {
                        usize::MAX as nat
                    },
                decreases o.len() - i,
            {
                proof {
                    assert(o@.take(i + 1).drop_last() =~= o@.take(i as int));
                    assert(decreases_to!(*v => (*v)->Object_0));
                    assert((*v)->Object_0 == *o);
                    assert(decreases_to!(*o => o@));
                    assert(decreases_to!(o@ => o@[i as int]));
                    assert(decreases_to!(o@[i as int] => o@[i as int].1));
                }
                let t = response_tokens(&o[i].1);
                n = n.saturating_add(t);
                i += 1;
            }
            assert(o@.take(o.len() as int) =~= o@);
            n
        },
        _ => 0,
    }
}

#[derive(Debug, Clone, PartialEq, Eq, Structural)]
pub struct SessionUsage {
    /// `None` for sessions recorded before relay measured the brief.
    pub brief_tokens: Option<usize>,
    pub tool_tokens: usize,
    pub orientation_tokens: usize,
    pub edited: bool,
}

/// `data["tokens"]` of a tool event, 0 when absent.
pub open spec fn tokens_of(e: Event) -> nat {
    match e.data.at("tokens"@).u64_of() {
        Some(n) => n as nat,
        None => 0,
    }
}

/// The event is a tool call of an edit tool.
pub open spec fn is_edit_event(e: Event) -> bool {
    e.event@ == "tool"@ && e.data.at("tool"@).str_of().is_some() && is_edit_spec(
        e.data.at("tool"@).str_of().unwrap(),
    )
}

/// Index of the first tool event that edits, or the length.
pub open spec fn first_edit(evs: Seq<Event>) -> int
    decreases evs.len(),
{
    if evs.len() == 0 {
        0
    } else if is_edit_event(evs[0]) {
        0
    } else {
        1 + first_edit(evs.drop_first())
    }
}

/// Tokens of the tool events among `evs`.
pub open spec fn tool_tokens_spec(evs: Seq<Event>) -> nat
    decreases evs.len(),
{
    if evs.len() == 0 {
        0
    } else {
        tool_tokens_spec(evs.drop_last()) + if evs.last().event@ == "tool"@ {
            tokens_of(evs.last())
        } else {
            0
        }
    }
}

/// The brief size the first `session_start` event recorded.
pub open spec fn brief_tokens_spec(evs: Seq<Event>) -> Option<usize>
    decreases evs.len(),
{
    if evs.len() == 0 {
        None
    } else if evs[0].event@ == "session_start"@ {
        match evs[0].data.at("brief_tokens"@).u64_of() {
            Some(n) if n <= usize::MAX => Some(n as usize),
            _ => None,
        }
    } else {
        brief_tokens_spec(evs.drop_first())
    }
}

pub open spec fn any_edit(evs: Seq<Event>) -> bool {
    exists|i: int| 0 <= i < evs.len() && is_edit_event(evs[i])
}

pub proof fn lemma_first_edit(evs: Seq<Event>)
    ensures
        0 <= first_edit(evs) <= evs.len(),
        forall|j: int| 0 <= j < first_edit(evs) ==> !is_edit_event(#[trigger] evs[j]),
        first_edit(evs) < evs.len() ==> is_edit_event(evs[first_edit(evs)]),
    decreases evs.len(),
{
    if evs.len() > 0 && !is_edit_event(evs[0]) {
        lemma_first_edit(evs.drop_first());
        assert forall|j: int| 0 <= j < first_edit(evs) implies !is_edit_event(#[trigger] evs[j]) by {
            if j > 0 {
                assert(evs[j] == evs.drop_first()[j - 1]);
            }
        }
    }
}

proof fn lemma_first_edit_is(evs: Seq<Event>, k: int)
    requires
        0 <= k <= evs.len(),
        forall|j: int| 0 <= j < k ==> !is_edit_event(#[trigger] evs[j]),
        k < evs.len() ==> is_edit_event(evs[k]),
    ensures
        first_edit(evs) == k,
    decreases evs.len(),
{
    if k > 0 {
        assert(!is_edit_event(evs[0]));
        assert forall|j: int| 0 <= j < k - 1 implies !is_edit_event(
            #[trigger] evs.drop_first()[j],
        ) by {
            assert(evs.drop_first()[j] == evs[j + 1]);
        }
        lemma_first_edit_is(evs.drop_first(), k - 1);
    }
}

proof fn lemma_brief_prefix(evs: Seq<Event>, i: int)
    requires
        0 <= i < evs.len(),
        forall|j: int| 0 <= j < i ==> evs[j].event@ != "session_start"@,
    ensures
        brief_tokens_spec(evs) == brief_tokens_spec(evs.skip(i)),
    decreases i,
{
    if i == 0 {
        assert(evs.skip(0) =~= evs);
    }
    if i > 0 {
        assert forall|j: int| 0 <= j < i - 1 implies evs.drop_first()[j].event@
            != "session_start"@ by {
            assert(evs.drop_first()[j] == evs[j + 1]);
        }
        assert(evs[0].event@ != "session_start"@);
        lemma_brief_prefix(evs.drop_first(), i - 1);
        assert(evs.drop_first().skip(i - 1) =~= evs.skip(i));
    }
}

/// What a session spent: the brief it started with, the tool output it
/// read, and the part of that read before its first edit.
pub open spec fn session_usage_ok(u: SessionUsage, evs: Seq<Event>) -> bool {
    &&& u.brief_tokens == brief_tokens_spec(evs)
    &&& u.tool_tokens == tool_tokens_spec(evs)
    &&& u.orientation_tokens == tool_tokens_spec(evs.take(first_edit(evs)))
    &&& u.edited == any_edit(evs)
}

pub fn of(events: &[Event]) -> (u: SessionUsage)
    requires
        tool_tokens_spec(events@) <= usize::MAX,
    ensures
        session_usage_ok(u, events@),
{
    let mut u = SessionUsage { brief_tokens: None, tool_tokens: 0, orientation_tokens: 0, edited: false };
    let mut seen_start = false;
    let mut i: usize = 0;
    proof {
        lemma_first_edit(events@);
    }
    while i < events.len()
        invariant
            i <= events.len(),
            tool_tokens_spec(events@) <= usize::MAX,
            0 <= first_edit(events@) <= events@.len(),
            forall|j: int| 0 <= j < first_edit(events@) ==> !is_edit_event(#[trigger] events@[j]),
            first_edit(events@) < events@.len() ==> is_edit_event(events@[first_edit(events@)]),
            u.tool_tokens == tool_tokens_spec(events@.take(i as int)),
            u.edited == (first_edit(events@) < i),
            u.orientation_tokens == tool_tokens_spec(events@.take(if first_edit(events@) < i {
                first_edit(events@)
            } else {
                i as int
            })),
            seen_start == (exists|j: int| 0 <= j < i && events@[j].event@ == "session_start"@),
            !seen_start ==> u.brief_tokens.is_none(),
            seen_start ==> u.brief_tokens == brief_tokens_spec(events@),
        decreases events.len() - i,
    {
        let e = &events[i];
        proof {
            reveal_strlit("tool");
            reveal_strlit("session_start");
            assert("tool"@.len() == 4);
            assert("session_start"@.len() == 13);
            assert(events@.take(i + 1).drop_last() =~= events@.take(i as int));
            assert(events@.take(i + 1).last() == events@[i as int]);
            lemma_tool_tokens_mono(events@, i as int + 1);
        }
        if str_eq(e.event.as_str(), "session_start") {
            proof {
                assert(events@[i as int].event@ != "tool"@);
                assert(tool_tokens_spec(events@.take(i + 1)) == tool_tokens_spec(events@.take(i as int)));
            }
            if !seen_start {
                proof {
                    lemma_brief_prefix(events@, i as int);
                    assert(events@.skip(i as int)[0] == events@[i as int]);
                }
                u.brief_tokens = match e.data.u64_at("brief_tokens") {
                    Some(n) => if n <= usize::MAX as u64 {
                        Some(n as usize)
                    } else {
                        None
                    },
                    None => None,
                };
                seen_start = true;
            }
        } else if str_eq(e.event.as_str(), "tool") {
            let edit = match e.data.str_at("tool") {
                Some(t) => is_edit(t),
                None => false,
            };
            if edit {
                u.edited = true;
                proof {
                    if first_edit(events@) > i {
                        assert(!is_edit_event(events@[i as int]));
                    }
                }
            } else {
                proof {
                    assert(!is_edit_event(events@[i as int]));
                    if first_edit(events@) == i {
                        assert(is_edit_event(events@[i as int]));
                    }
                }
            }
            let t = match e.data.u64_at("tokens") {
                Some(n) => n,
                None => 0,
            };
            proof {
                assert(t == tokens_of(events@[i as int]));
                assert(tool_tokens_spec(events@.take(i + 1)) == tool_tokens_spec(events@.take(i as int)) + t);
            }
            u.tool_tokens = u.tool_tokens + t as usize;
            if !u.edited {
                u.orientation_tokens = u.orientation_tokens + t as usize;
            }
        } else {
            proof {
                assert(!is_edit_event(events@[i as int]));
                if first_edit(events@) == i {
                    assert(is_edit_event(events@[i as int]));
                }
            }
        }
        i += 1;
    }
    proof {
        assert(events@.take(events.len() as int) =~= events@);
        if u.edited {
            assert(any_edit(events@));
        } else {
            assert(!any_edit(events@));
        }
        if !seen_start {
            lemma_no_start(events@);
        }
    }
    u
}

proof fn lemma_no_start(evs: Seq<Event>)
    requires
        forall|j: int| 0 <= j < evs.len() ==> evs[j].event@ != "session_start"@,
    ensures
        brief_tokens_spec(evs).is_none(),
    decreases evs.len(),
{
    if evs.len() > 0 {
        assert forall|j: int| 0 <= j < evs.drop_first().len() implies evs.drop_first()[j].event@
            != "session_start"@ by {
            assert(evs.drop_first()[j] == evs[j + 1]);
        }
        lemma_no_start(evs.drop_first());
    }
}

/// Tool tokens of a prefix are at most those of the whole.
pub proof fn lemma_tool_tokens_mono(evs: Seq<Event>, k: int)
    requires
        0 <= k <= evs.len(),
    ensures
        tool_tokens_spec(evs.take(k)) <= tool_tokens_spec(evs),
    decreases evs.len() - k,
{
    if k < evs.len() {
        lemma_tool_tokens_mono(evs, k + 1);
        assert(evs.take(k + 1).drop_last() =~= evs.take(k));
    } else {
        assert(evs.take(k) =~= evs);
    }
}

/// Exact API usage of one session, read from the harness's transcript.
#[derive(Debug, Clone, Copy, PartialEq, Eq, Structural)]
pub struct ApiUsage {
    pub calls: usize,
    /// Context of the first call: everything sent before any work.
    pub first_context: usize,
    pub peak_context: usize,
    /// Sum of the context of every call; each call resends the history.
    pub context_sent: usize,
    /// Part of `context_sent` served from the provider's prompt cache.
    pub cached: usize,
    pub output: usize,
}

impl ApiUsage {
    pub open spec fn fits(self, context: usize, cached: usize, output: usize) -> bool {
        &&& self.calls < usize::MAX
        &&& self.context_sent + context <= usize::MAX
        &&& self.cached + cached <= usize::MAX
        &&& self.output + output <= usize::MAX
    }

    pub open spec fn new_spec() -> ApiUsage {
        ApiUsage { calls: 0, first_context: 0, peak_context: 0, context_sent: 0, cached: 0, output: 0 }
    }

    /// The usage after one more call.
    pub open spec fn after_call(self, context: usize, cached: usize, output: usize) -> ApiUsage {
        ApiUsage {
            calls: (self.calls + 1) as usize,
            first_context: if self.calls == 0 {
                context
            } else {
                self.first_context
            },
            peak_context: if context > self.peak_context {
                context
            } else {
                self.peak_context
            },
            context_sent: (self.context_sent + context) as usize,
            cached: (self.cached + cached) as usize,
            output: (self.output + output) as usize,
        }
    }

    pub fn new() -> (u: ApiUsage)
        ensures
            u == ApiUsage::new_spec(),
            u.calls == 0 && u.first_context == 0 && u.peak_context == 0 && u.context_sent == 0
                && u.cached == 0 && u.output == 0,
    {
        ApiUsage { calls: 0, first_context: 0, peak_context: 0, context_sent: 0, cached: 0, output: 0 }
    }

    /// One more API call with `context` tokens sent, `cached` of them from
    /// the cache, and `output` tokens back.
    pub fn add_call(&mut self, context: usize, cached: usize, output: usize)
        requires
            old(self).fits(context, cached, output),
        ensures
            final(self).calls == old(self).calls + 1,
            final(self).first_context == if old(self).calls == 0 {
                context
            } else {
                old(self).first_context
            },
            final(self).peak_context == if context > old(self).peak_context {
                context
            } else {
                old(self).peak_context
            },
            final(self).context_sent == old(self).context_sent + context,
            final(self).cached == old(self).cached + cached,
            final(self).output == old(self).output + output,
            *final(self) == old(self).after_call(context, cached, output),
    {
        if self.calls == 0 {
            self.first_context = context;
        }
        self.calls += 1;
        if context > self.peak_context {
            self.peak_context = context;
        }
        self.context_sent += context;
        self.cached += cached;
        self.output += output;
    }
}

impl Default for ApiUsage {
    fn default() -> (u: ApiUsage)
        ensures
            u.calls == 0 && u.first_context == 0 && u.peak_context == 0 && u.context_sent == 0
                && u.cached == 0 && u.output == 0,
    {
        ApiUsage::new()
    }
}

/// The middle of `v` in ascending order (the upper one of two), `None`
/// for no values.
pub open spec fn median_spec(v: Seq<usize>) -> Option<usize> {
    if v.len() == 0 {
        None
    } else {
        Some(ascending(v.map_values(|x: usize| x as u64))[(v.len() / 2) as int] as usize)
    }
}

pub fn median(v: Vec<usize>) -> (r: Option<usize>)
    ensures
        r == median_spec(v@),
{
    let mut w: Vec<u64> = Vec::new();
    let mut i: usize = 0;
    while i < v.len()
        invariant
            i <= v.len(),
            w@ == v@.take(i as int).map_values(|x: usize| x as u64),
        decreases v.len() - i,
    {
        w.push(v[i] as u64);
        i += 1;
        assert(w@ =~= v@.take(i as int).map_values(|x: usize| x as u64));
    }
    assert(v@.take(v.len() as int) =~= v@);
    if v.len() == 0 {
        return None;
    }
    let s = sort_u64(&w);
    proof {
        w@.lemma_sort_by_ensures(crate::sort::leq_u64());
        assert(s@.len() == w@.len()) by {
            w@.to_multiset_ensures();
            s@.to_multiset_ensures();
        }
    }
    let m = s[v.len() / 2];
    proof {
        let k = v.len() / 2;
        assert(w@.contains(m)) by {
            assert(s@.contains(m));
            w@.to_multiset_ensures();
            s@.to_multiset_ensures();
        }
        let j = choose|j: int| 0 <= j < w@.len() && w@[j] == m;
        assert(m == v@[j] as u64);
    }
    Some(m as usize)
}

} // verus!
