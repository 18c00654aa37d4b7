//! A running total per agent, and a reminder when it gets expensive.
//! Subagents of 300k to 650k tokens each were only found afterwards; a
//! note when an agent passes each `WARN_EVERY` of tool output lets it
//! change course while it still can. When an agent ends, its total joins
//! a history keyed by the task ids its session was asked about, so
//! `relay usage --history` shows what each task cost over time.
//!
//! The board of a live session is kept on disk by the caller, one small
//! file per session, with the history appended to `usage.jsonl`; how the
//! board changes is here.

use vstd::prelude::*;

use crate::fmt::{human_tokens, human_tokens_spec, push_all, push_text};
use crate::limits::WARN_EVERY;
use crate::order::{lemma_seq_lt_irrefl, lemma_seq_lt_total, lemma_seq_lt_trans};
use crate::paths::{join, join_spec};
use crate::pattern::{find_all, regex_found};
use crate::strset::{insert_str, sorted_strs};
use crate::text::{ascii_alnum, chars_of, is_ascii_alnum, seq_lt, str_eq, str_lt, string_of};

verus! {

/// One agent's total: `agent` is empty for the main thread.
pub struct Counter {
    pub agent: String,
    pub tokens: usize,
    /// How many `WARN_EVERY` steps the agent was told about.
    pub warned: usize,
    pub kind: String,
}

pub struct CounterV {
    pub agent: Seq<char>,
    pub tokens: nat,
    pub warned: nat,
    pub kind: Seq<char>,
}

impl Counter {
    pub open spec fn view(&self) -> CounterV {
        CounterV { agent: self.agent@, tokens: self.tokens as nat, warned: self.warned as nat, kind: self.kind@ }
    }
}

pub open spec fn counters_view(v: Seq<Counter>) -> Seq<CounterV> {
    v.map_values(|c: Counter| c.view())
}

/// A session's totals: the task ids its prompts named (ascending, each
/// once) and one counter per agent (ascending by agent).
pub struct Board {
    pub tasks: Vec<String>,
    pub agents: Vec<Counter>,
}

pub open spec fn sorted_agents(s: Seq<CounterV>) -> bool {
    forall|i: int, j: int| 0 <= i < j < s.len() ==> seq_lt(#[trigger] s[i].agent, #[trigger] s[j].agent)
}

/// The counter of `agent`, if it has one.
pub open spec fn counter_of(s: Seq<CounterV>, agent: Seq<char>) -> Option<CounterV> {
    if exists|k: int| 0 <= k < s.len() && s[k].agent == agent {
        Some(s[choose|k: int| 0 <= k < s.len() && s[k].agent == agent])
    } else {
        None
    }
}

impl Board {
    pub open spec fn tasks_view(&self) -> Seq<Seq<char>> {
        self.tasks.deep_view()
    }

    pub open spec fn agents_view(&self) -> Seq<CounterV> {
        counters_view(self.agents@)
    }

    pub open spec fn wf(&self) -> bool {
        sorted_strs(self.tasks_view()) && sorted_agents(self.agents_view())
    }

    pub fn new() -> (b: Board)
        ensures
            b.wf(),
            b.tasks_view() == Seq::<Seq<char>>::empty(),
            b.agents_view() == Seq::<CounterV>::empty(),
    {
        let b = Board { tasks: Vec::new(), agents: Vec::new() };
        proof {
            assert(b.tasks_view() =~= Seq::<Seq<char>>::empty());
            assert(b.agents_view() =~= Seq::<CounterV>::empty());
        }
        b
    }
}

proof fn lemma_counter_at(s: Seq<CounterV>, k: int)
    requires
        sorted_agents(s),
        0 <= k < s.len(),
    ensures
        counter_of(s, s[k].agent) == Some(s[k]),
{
    let c = choose|c: int| 0 <= c < s.len() && s[c].agent == s[k].agent;
    if c < k {
        assert(seq_lt(s[c].agent, s[k].agent));
        lemma_seq_lt_irrefl(s[k].agent);
    } else if c > k {
        assert(seq_lt(s[k].agent, s[c].agent));
        lemma_seq_lt_irrefl(s[k].agent);
    }
}

/// Task ids in a prompt: upper-case letters, `-`, digits.
pub open spec fn task_pattern() -> Seq<char> {
    "\\b[A-Z]{1,8}-\\d{1,6}[a-z]?\\b"@
}

pub open spec fn task_ids(prompt: Seq<char>) -> Seq<Seq<char>> {
    match regex_found(task_pattern(), prompt) {
        Some(v) => v,
        None => seq![],
    }
}

/// The reminder for an agent that passed another step.
pub open spec fn note_spec(agent: Seq<char>, tokens: nat) -> Seq<char> {
    "relay: "@ + (if agent.len() == 0 {
        "This session"@
    } else {
        "This subagent"@
    }) + " has taken in ~"@ + human_tokens_spec(tokens)
        + " tokens of tool output (estimated). Before the next big read: `relay brief <task id>` for one plan section, Read with offset and limit, Grep for a word; hand back what you have if the task is done."@
}

/// An agent's counter after `tokens` more, and whether it is told.
pub open spec fn after_add(c: CounterV, kind: Option<Seq<char>>, tokens: nat) -> (CounterV, bool) {
    let total = c.tokens + tokens;
    let step = total / (WARN_EVERY as nat);
    let k = match kind {
        Some(k) => if k.len() > 0 {
            k
        } else {
            c.kind
        },
        None => c.kind,
    };
    (
        CounterV {
            agent: c.agent,
            tokens: total,
            warned: if step > c.warned {
                step
            } else {
                c.warned
            },
            kind: k,
        },
        step > c.warned,
    )
}

pub open spec fn fresh_counter(agent: Seq<char>) -> CounterV {
    CounterV { agent, tokens: 0, warned: 0, kind: seq![] }
}

/// An agent is told each time its total passes another multiple of
/// `WARN_EVERY`, and once per step: a counter that has been told about
/// every step it passed is told after more tokens exactly when they carry
/// it into a new step, and has then been told about every step again.
pub proof fn law_told_once_per_step(c: CounterV, kind: Option<Seq<char>>, tokens: nat)
    requires
        c.warned == c.tokens / (WARN_EVERY as nat),
    ensures
        after_add(c, kind, tokens).0.tokens == c.tokens + tokens,
        after_add(c, kind, tokens).1 <==> (c.tokens + tokens) / (WARN_EVERY as nat) > c.tokens / (WARN_EVERY as nat),
        after_add(c, kind, tokens).0.warned == after_add(c, kind, tokens).0.tokens / (WARN_EVERY as nat),
{
    vstd::arithmetic::div_mod::lemma_div_is_ordered(c.tokens as int, (c.tokens + tokens) as int, WARN_EVERY as int);
}

/// A fresh counter has been told about every step it passed.
pub proof fn law_fresh_counter_told_nothing(agent: Seq<char>)
    ensures
        fresh_counter(agent).warned == fresh_counter(agent).tokens / (WARN_EVERY as nat),
{
}

pub open spec fn current(s: Seq<CounterV>, agent: Seq<char>) -> CounterV {
    match counter_of(s, agent) {
        Some(c) => c,
        None => fresh_counter(agent),
    }
}

pub open spec fn opt_str(o: Option<&str>) -> Option<Seq<char>> {
    match o {
        Some(s) => Some(s@),
        None => None,
    }
}

/// What a session's history line keeps of an agent that ended.
#[derive(Debug, Clone, PartialEq, Eq)]
pub struct Spent {
    pub ts: String,
    pub session: String,
    /// Empty for the main thread.
    pub agent: String,
    pub kind: String,
    /// Tool output it received, estimated.
    pub tokens: usize,
    pub tasks: Vec<String>,
}

pub struct SpentV {
    pub ts: Seq<char>,
    pub session: Seq<char>,
    pub agent: Seq<char>,
    pub kind: Seq<char>,
    pub tokens: nat,
    pub tasks: Seq<Seq<char>>,
}

impl Spent {
    pub open spec fn view(&self) -> SpentV {
        SpentV {
            ts: self.ts@,
            session: self.session@,
            agent: self.agent@,
            kind: self.kind@,
            tokens: self.tokens as nat,
            tasks: self.tasks.deep_view(),
        }
    }
}

pub open spec fn spents_view(v: Seq<Spent>) -> Seq<SpentV> {
    v.map_values(|s: Spent| s.view())
}

/// The history lines for the counters that ended, those that took in
/// anything, in order.
pub open spec fn spent_of(ended: Seq<CounterV>, ts: Seq<char>, session: Seq<char>, tasks: Seq<Seq<char>>) -> Seq<
    SpentV,
>
    decreases ended.len(),
{
    if ended.len() == 0 {
        seq![]
    } else {
        let c = ended.last();
        spent_of(ended.drop_last(), ts, session, tasks) + if c.tokens > 0 {
            seq![SpentV { ts, session, agent: c.agent, kind: c.kind, tokens: c.tokens, tasks }]
        } else {
            Seq::<SpentV>::empty()
        }
    }
}

fn find_slot(agents: &Vec<Counter>, agent: &str) -> (r: (usize, bool))
    requires
        sorted_agents(counters_view(agents@)),
    ensures
        r.0 <= agents@.len(),
        forall|i: int| 0 <= i < r.0 ==> seq_lt(#[trigger] counters_view(agents@)[i].agent, agent@),
        r.1 ==> r.0 < agents@.len() && counters_view(agents@)[r.0 as int].agent == agent@,
        !r.1 ==> r.0 < agents@.len() ==> seq_lt(agent@, counters_view(agents@)[r.0 as int].agent),
{
    let ghost s = counters_view(agents@);
    let mut p: usize = 0;
    while p < agents.len() && str_lt(agents[p].agent.as_str(), agent)
        invariant
            s == counters_view(agents@),
            sorted_agents(s),
            p <= agents@.len(),
            forall|i: int| 0 <= i < p ==> seq_lt(#[trigger] s[i].agent, agent@),
        decreases agents@.len() - p,
    {
        proof {
            assert(s[p as int] == agents@[p as int].view());
        }
        p += 1;
    }
    if p < agents.len() {
        proof {
            assert(s[p as int] == agents@[p as int].view());
            lemma_seq_lt_total(s[p as int].agent, agent@);
        }
        if str_eq(agents[p].agent.as_str(), agent) {
            return (p, true);
        }
    }
    (p, false)
}

impl Board {
    /// The session was asked `prompt`: the task ids in it are what its
    /// agents' cost is filed under.
    pub fn asked(&mut self, prompt: &str)
        requires
            old(self).wf(),
        ensures
            final(self).wf(),
            final(self).tasks_view().to_set() == old(self).tasks_view().to_set() + task_ids(prompt@).to_set(),
            final(self).agents_view() == old(self).agents_view(),
    {
        let ids = match find_all("\\b[A-Z]{1,8}-\\d{1,6}[a-z]?\\b", prompt) {
            Some(v) => v,
            None => Vec::new(),
        };
        let ghost iv = ids.deep_view();
        let ghost start = self.tasks_view().to_set();
        proof {
            if regex_found(task_pattern(), prompt@) is None {
                assert(iv =~= Seq::<Seq<char>>::empty());
            }
            assert(iv == task_ids(prompt@));
            assert(start + iv.take(0).to_set() =~= start);
        }
        let mut i: usize = 0;
        while i < ids.len()
            invariant
                iv == ids.deep_view(),
                i <= iv.len(),
                sorted_strs(self.tasks_view()),
                sorted_agents(self.agents_view()),
                self.agents_view() == old(self).agents_view(),
                self.tasks_view().to_set() == start + iv.take(i as int).to_set(),
            decreases iv.len() - i,
        {
            insert_str(&mut self.tasks, ids[i].as_str());
            proof {
                assert(iv[i as int] == ids@[i as int]@);
                assert(iv.take(i + 1) =~= iv.take(i as int).push(iv[i as int]));
                lemma_push_set(iv.take(i as int), iv[i as int]);
                assert(self.tasks_view().to_set() =~= start + iv.take(i + 1).to_set());
            }
            i += 1;
        }
        proof {
            assert(iv.take(iv.len() as int) =~= iv);
        }
    }

    /// Add `tokens` to `agent`'s total (empty for the main thread); the
    /// reminder to show it when the total just passed another step.
    pub fn add(&mut self, agent: &str, kind: Option<&str>, tokens: usize) -> (r: Option<String>)
        requires
            old(self).wf(),
            current(old(self).agents_view(), agent@).tokens + tokens <= usize::MAX,
        ensures
            final(self).wf(),
            final(self).tasks_view() == old(self).tasks_view(),
            tokens == 0 ==> final(self).agents_view() == old(self).agents_view() && r is None,
            tokens > 0 ==> ({
                let (c, told) = after_add(current(old(self).agents_view(), agent@), opt_str(kind), tokens as nat);
                &&& counter_of(final(self).agents_view(), agent@) == Some(c)
                &&& forall|a: Seq<char>|
                    a != agent@ ==> counter_of(final(self).agents_view(), a) == counter_of(old(self).agents_view(), a)
                &&& if told {
                    r is Some && r->0@ == note_spec(agent@, c.tokens)
                } else {
                    r is None
                }
            }),
    {
        if tokens == 0 {
            return None;
        }
        let ghost s = self.agents_view();
        let (p, found) = find_slot(&self.agents, agent);
        proof {
            if found {
                lemma_counter_at(s, p as int);
            } else {
                lemma_absent(s, p as int, agent@);
            }
        }
        let (old_tokens, old_warned, old_kind) = if found {
            (self.agents[p].tokens, self.agents[p].warned, self.agents[p].kind.clone())
        } else {
            (0, 0, String::new())
        };
        let total = old_tokens + tokens;
        let step = total / WARN_EVERY;
        let new_kind = match kind {
            Some(k) => if !k.is_empty() {
                k.to_string()
            } else {
                old_kind
            },
            None => old_kind,
        };
        let told = step > old_warned;
        let c = Counter { agent: agent.to_string(), tokens: total, warned: if told {
            step
        } else {
            old_warned
        }, kind: new_kind };
        let ghost cv = c.view();
        proof {
            assert(cv == after_add(current(s, agent@), opt_str(kind), tokens as nat).0);
        }
        if found {
            self.agents.set(p, c);
            proof {
                assert(self.agents_view() =~= s.update(p as int, cv));
                lemma_update_sorted(s, p as int, cv);
            }
        } else {
            self.agents.insert(p, c);
            proof {
                assert(self.agents_view() =~= s.insert(p as int, cv)) by {
                    s.insert_ensures(p as int, cv);
                    assert forall|k: int| 0 <= k < self.agents_view().len() implies self.agents_view()[k] == s.insert(
                        p as int,
                        cv,
                    )[k] by {}
                }
                lemma_insert_sorted(s, p as int, cv);
            }
        }
        if told {
            let mut m = chars_of("relay: ");
            if agent.is_empty() {
                push_text(&mut m, "This session");
            } else {
                push_text(&mut m, "This subagent");
            }
            push_text(&mut m, " has taken in ~");
            let h = human_tokens(total);
            push_all(&mut m, &h);
            push_text(
                &mut m,
                " tokens of tool output (estimated). Before the next big read: `relay brief <task id>` for one plan section, Read with offset and limit, Grep for a word; hand back what you have if the task is done.",
            );
            Some(string_of(&m))
        } else {
            None
        }
    }

    /// `agent` ended (or, with `None`, the whole session): its counter
    /// leaves the board, and the history gains its line when it took in
    /// anything, filed under the session's task ids.
    pub fn close(&mut self, session: &str, agent: Option<&str>, ts: &str) -> (r: Vec<Spent>)
        requires
            old(self).wf(),
        ensures
            final(self).wf(),
            final(self).tasks_view() == old(self).tasks_view(),
            match agent {
                None => final(self).agents_view() == Seq::<CounterV>::empty() && spents_view(r@) == spent_of(
                    old(self).agents_view(),
                    ts@,
                    session@,
                    old(self).tasks_view(),
                ),
                Some(a) => counter_of(final(self).agents_view(), a@) is None && (forall|b: Seq<char>|
                    b != a@ ==> counter_of(final(self).agents_view(), b) == counter_of(old(self).agents_view(), b))
                    && spents_view(r@) == spent_of(
                    match counter_of(old(self).agents_view(), a@) {
                        Some(c) => seq![c],
                        None => Seq::<CounterV>::empty(),
                    },
                    ts@,
                    session@,
                    old(self).tasks_view(),
                ),
            },
    {
        let ghost s = self.agents_view();
        let mut ended: Vec<Counter> = Vec::new();
        match agent {
            Some(a) => {
                let (p, found) = find_slot(&self.agents, a);
                if found {
                    proof {
                        lemma_counter_at(s, p as int);
                    }
                    let c = self.agents.remove(p);
                    ended.push(c);
                    proof {
                        let g = self.agents_view();
                        assert(g =~= s.remove(p as int));
                        assert(counters_view(ended@) =~= seq![s[p as int]]);
                        assert(sorted_agents(g)) by {
                            assert forall|i: int, j: int| 0 <= i < j < g.len() implies seq_lt(
                                #[trigger] g[i].agent,
                                #[trigger] g[j].agent,
                            ) by {
                                if i < p {
                                    assert(g[i] == s[i]);
                                } else {
                                    assert(g[i] == s[i + 1]);
                                }
                                if j < p {
                                    assert(g[j] == s[j]);
                                } else {
                                    assert(g[j] == s[j + 1]);
                                }
                            }
                        }
                        lemma_removed_counter(s, g, p as int);
                    }
                } else {
                    proof {
                        lemma_absent(s, p as int, a@);
                        assert(counters_view(ended@) =~= Seq::<CounterV>::empty());
                    }
                }
            },
            None => {
                let mut none: Vec<Counter> = Vec::new();
                std::mem::swap(&mut none, &mut self.agents);
                ended = none;
                proof {
                    assert(self.agents_view() =~= Seq::<CounterV>::empty());
                }
            },
        }
        let ghost ev = counters_view(ended@);
        let mut out: Vec<Spent> = Vec::new();
        let mut i: usize = 0;
        proof {
            assert(ev.take(0) =~= Seq::<CounterV>::empty());
            assert(spents_view(out@) =~= Seq::<SpentV>::empty());
        }
        while i < ended.len()
            invariant
                ev == counters_view(ended@),
                i <= ended@.len(),
                spents_view(out@) == spent_of(ev.take(i as int), ts@, session@, self.tasks_view()),
            decreases ended@.len() - i,
        {
            proof {
                assert(ev.take(i + 1).drop_last() =~= ev.take(i as int));
                assert(ev.take(i + 1).last() == ended@[i as int].view());
            }
            if ended[i].tokens > 0 {
                let sp = Spent {
                    ts: ts.to_string(),
                    session: session.to_string(),
                    agent: ended[i].agent.clone(),
                    kind: ended[i].kind.clone(),
                    tokens: ended[i].tokens,
                    tasks: crate::strset::copy_strs(&self.tasks),
                };
                let ghost before = spents_view(out@);
                out.push(sp);
                proof {
                    assert(spents_view(out@) =~= before.push(sp.view()));
                }
            } else {
                proof {
                    assert(spents_view(out@) =~= spents_view(out@) + Seq::<SpentV>::empty());
                }
            }
            i += 1;
        }
        proof {
            assert(ev.take(ended@.len() as int) =~= ev);
        }
        out
    }
}

proof fn lemma_absent(s: Seq<CounterV>, p: int, a: Seq<char>)
    requires
        sorted_agents(s),
        0 <= p <= s.len(),
        forall|i: int| 0 <= i < p ==> seq_lt(#[trigger] s[i].agent, a),
        p < s.len() ==> seq_lt(a, s[p].agent),
    ensures
        counter_of(s, a) is None,
{
    if exists|k: int| 0 <= k < s.len() && s[k].agent == a {
        let k = choose|k: int| 0 <= k < s.len() && s[k].agent == a;
        lemma_seq_lt_irrefl(a);
        if k > p {
            assert(seq_lt(s[p].agent, s[k].agent));
            lemma_seq_lt_trans(a, s[p].agent, a);
        }
    }
}

proof fn lemma_push_set(s: Seq<Seq<char>>, x: Seq<char>)
    ensures
        s.push(x).to_set() == s.to_set().insert(x),
{
    let t = s.push(x);
    assert forall|a: Seq<char>| t.to_set().contains(a) == s.to_set().insert(x).contains(a) by {
        if t.contains(a) {
            let k = choose|k: int| 0 <= k < t.len() && t[k] == a;
            if k < s.len() {
                assert(s[k] == a);
            }
        }
        if s.contains(a) {
            let k = choose|k: int| 0 <= k < s.len() && s[k] == a;
            assert(t[k] == a);
        }
        if a == x {
            assert(t[s.len() as int] == a);
        }
    }
    assert(t.to_set() =~= s.to_set().insert(x));
}

proof fn lemma_insert_sorted(s: Seq<CounterV>, p: int, c: CounterV)
    requires
        sorted_agents(s),
        0 <= p <= s.len(),
        forall|i: int| 0 <= i < p ==> seq_lt(#[trigger] s[i].agent, c.agent),
        p < s.len() ==> seq_lt(c.agent, s[p].agent),
    ensures
        sorted_agents(s.insert(p, c)),
        counter_of(s.insert(p, c), c.agent) == Some(c),
        forall|a: Seq<char>| a != c.agent ==> counter_of(s.insert(p, c), a) == counter_of(s, a),
{
    let g = s.insert(p, c);
    s.insert_ensures(p, c);
    assert forall|i: int, j: int| 0 <= i < j < g.len() implies seq_lt(#[trigger] g[i].agent, #[trigger] g[j].agent) by {
        if j < p {
        } else if j == p {
            assert(g[i] == s[i]);
        } else if i < p {
            assert(g[i] == s[i]);
            assert(g[j] == s[j - 1]);
            lemma_seq_lt_trans(s[i].agent, c.agent, s[p].agent);
            if j - 1 > p {
                lemma_seq_lt_trans(s[i].agent, s[p].agent, s[j - 1].agent);
            }
        } else if i == p {
            assert(g[j] == s[j - 1]);
            if j - 1 > p {
                lemma_seq_lt_trans(c.agent, s[p].agent, s[j - 1].agent);
            }
        } else {
            assert(g[i] == s[i - 1]);
            assert(g[j] == s[j - 1]);
        }
    }
    lemma_counter_at(g, p);
    assert forall|a: Seq<char>| a != c.agent implies counter_of(g, a) == counter_of(s, a) by {
        lemma_inserted_counter(s, g, p, c, a);
    }
}

proof fn lemma_update_sorted(s: Seq<CounterV>, p: int, c: CounterV)
    requires
        sorted_agents(s),
        0 <= p < s.len(),
        s[p].agent == c.agent,
    ensures
        sorted_agents(s.update(p, c)),
        counter_of(s.update(p, c), c.agent) == Some(c),
        forall|a: Seq<char>| a != c.agent ==> counter_of(s.update(p, c), a) == counter_of(s, a),
{
    let g = s.update(p, c);
    assert forall|i: int, j: int| 0 <= i < j < g.len() implies seq_lt(#[trigger] g[i].agent, #[trigger] g[j].agent) by {
        assert(g[i].agent == s[i].agent);
        assert(g[j].agent == s[j].agent);
    }
    lemma_counter_at(g, p);
    assert forall|a: Seq<char>| a != c.agent implies counter_of(g, a) == counter_of(s, a) by {
        lemma_other_counter(s, g, p, a);
    }
}

proof fn lemma_other_counter(s: Seq<CounterV>, g: Seq<CounterV>, p: int, a: Seq<char>)
    requires
        sorted_agents(s),
        0 <= p < s.len(),
        g.len() == s.len(),
        g[p].agent == s[p].agent,
        forall|i: int| 0 <= i < s.len() && i != p ==> g[i] == s[i],
        a != s[p].agent,
    ensures
        counter_of(g, a) == counter_of(s, a),
{
    if exists|k: int| 0 <= k < s.len() && s[k].agent == a {
        let k = choose|k: int| 0 <= k < s.len() && s[k].agent == a;
        lemma_counter_at(s, k);
        assert(g[k] == s[k]);
        assert(sorted_agents(g)) by {
            assert forall|i: int, j: int| 0 <= i < j < g.len() implies seq_lt(#[trigger] g[i].agent, #[trigger] g[j].agent) by {
                assert(g[i].agent == s[i].agent);
                assert(g[j].agent == s[j].agent);
            }
        }
        lemma_counter_at(g, k);
    } else {
        assert forall|k: int| 0 <= k < g.len() implies g[k].agent != a by {
            assert(g[k].agent == s[k].agent);
        }
    }
}

proof fn lemma_inserted_counter(s: Seq<CounterV>, g: Seq<CounterV>, p: int, c: CounterV, a: Seq<char>)
    requires
        sorted_agents(s),
        sorted_agents(g),
        0 <= p <= s.len(),
        g == s.insert(p, c),
        a != c.agent,
    ensures
        counter_of(g, a) == counter_of(s, a),
{
    s.insert_ensures(p, c);
    if exists|k: int| 0 <= k < s.len() && s[k].agent == a {
        let k = choose|k: int| 0 <= k < s.len() && s[k].agent == a;
        lemma_counter_at(s, k);
        if k < p {
            assert(g[k] == s[k]);
            lemma_counter_at(g, k);
        } else {
            assert(g[k + 1] == s[k]);
            lemma_counter_at(g, k + 1);
        }
    } else {
        assert forall|k: int| 0 <= k < g.len() implies g[k].agent != a by {
            if k < p {
                assert(g[k] == s[k]);
            } else if k > p {
                assert(g[k] == s[k - 1]);
            }
        }
    }
}

proof fn lemma_removed_counter(s: Seq<CounterV>, g: Seq<CounterV>, p: int)
    requires
        sorted_agents(s),
        sorted_agents(g),
        0 <= p < s.len(),
        g == s.remove(p),
    ensures
        counter_of(g, s[p].agent) is None,
        forall|b: Seq<char>| b != s[p].agent ==> counter_of(g, b) == counter_of(s, b),
{
    assert forall|k: int| 0 <= k < g.len() implies g[k].agent != s[p].agent by {
        if k < p {
            assert(g[k] == s[k]);
            assert(seq_lt(s[k].agent, s[p].agent));
            if g[k].agent == s[p].agent {
                lemma_seq_lt_irrefl(s[p].agent);
            }
        } else {
            assert(g[k] == s[k + 1]);
            assert(seq_lt(s[p].agent, s[k + 1].agent));
            if g[k].agent == s[p].agent {
                lemma_seq_lt_irrefl(s[p].agent);
            }
        }
    }
    assert forall|b: Seq<char>| b != s[p].agent implies counter_of(g, b) == counter_of(s, b) by {
        if exists|k: int| 0 <= k < s.len() && s[k].agent == b {
            let k = choose|k: int| 0 <= k < s.len() && s[k].agent == b;
            lemma_counter_at(s, k);
            if k < p {
                assert(g[k] == s[k]);
                lemma_counter_at(g, k);
            } else {
                assert(k != p);
                assert(g[k - 1] == s[k]);
                lemma_counter_at(g, k - 1);
            }
        } else {
            assert forall|k: int| 0 <= k < g.len() implies g[k].agent != b by {
                if k < p {
                    assert(g[k] == s[k]);
                } else {
                    assert(g[k] == s[k + 1]);
                }
            }
        }
    }
}

/// A session id made safe for a file name: ASCII letters, digits, `-`
/// and `_` kept, anything else `_`.
pub open spec fn safe_name(session: Seq<char>) -> Seq<char> {
    session.map_values(|c: char| if is_ascii_alnum(c) || c == '-' || c == '_' { c } else { '_' })
}

pub open spec fn board_file_spec(local: Seq<char>, session: Seq<char>) -> Seq<char> {
    join_spec(join_spec(local, "budget"@), safe_name(session) + ".json"@)
}

/// The file a session's board is kept in, under `<local>/budget/`.
pub fn board_file(local: &str, session: &str) -> (r: String)
    ensures
        r@ == board_file_spec(local@, session@),
{
    let s = chars_of(session);
    let mut v: Vec<char> = Vec::new();
    let mut i: usize = 0;
    while i < s.len()
        invariant
            i <= s@.len(),
            v@ =~= safe_name(s@).take(i as int),
        decreases s@.len() - i,
    {
        let c = s[i];
        if ascii_alnum(c) || c == '-' || c == '_' {
            v.push(c);
        } else {
            v.push('_');
        }
        proof {
            assert(safe_name(s@).take(i + 1) =~= safe_name(s@).take(i as int).push(safe_name(s@)[i as int]));
        }
        i += 1;
    }
    proof {
        assert(safe_name(s@).take(s@.len() as int) =~= safe_name(s@));
    }
    push_text(&mut v, ".json");
    let name = string_of(&v);
    let dir = join(local, "budget");
    join(dir.as_str(), name.as_str())
}

} // verus!
