//! Who spent the context, from what the hooks saw: per session and per
//! subagent, the tool output each read (estimated), where its transcript
//! is for the exact numbers, the biggest reads, and what relay kept out.

use vstd::prelude::*;

use crate::spool::Event;
use crate::text::{chars_of, squash_ws, str_eq, string_of, join_spec, words_of};
use crate::usage::tool_tokens_spec;

verus! {

/// One consumer of context: a session's main thread or one of its
/// subagents.
pub struct Agent {
    /// Empty for the main thread.
    pub id: String,
    /// The subagent's type (`Explore`, `general-purpose`, a custom name).
    pub kind: String,
    /// Tool output it received, estimated.
    pub tool_tokens: usize,
    pub calls: usize,
    /// The harness's own transcript, for exact API usage.
    pub transcript: Option<String>,
}

/// One read, for the list of the biggest.
#[derive(Debug, PartialEq, Eq)]
pub struct Read {
    pub file: String,
    pub tokens: usize,
    /// The subagent that read it; empty for the main thread.
    pub agent: String,
}

pub struct Tally {
    pub session: String,
    pub harness: String,
    /// The first thing the session was asked.
    pub label: String,
    /// The main thread first, then subagents in the order they started.
    pub agents: Vec<Agent>,
    pub reads: Vec<Read>,
    /// Whole-file reads the read guard turned down: tokens the file would
    /// have cost, and tokens of the outline shown instead.
    pub guarded: Vec<(usize, usize)>,
}

#[verifier::ext_equal]
pub struct AgentV {
    pub id: Seq<char>,
    pub kind: Seq<char>,
    pub tool_tokens: nat,
    pub calls: nat,
    pub transcript: Option<Seq<char>>,
}

#[verifier::ext_equal]
pub struct ReadV {
    pub file: Seq<char>,
    pub tokens: nat,
    pub agent: Seq<char>,
}

#[verifier::ext_equal]
pub struct TallyV {
    pub session: Seq<char>,
    pub harness: Seq<char>,
    pub label: Seq<char>,
    pub agents: Seq<AgentV>,
    pub reads: Seq<ReadV>,
    pub guarded: Seq<(usize, usize)>,
}

pub open spec fn opt_view(o: Option<String>) -> Option<Seq<char>> {
    match o {
        Some(s) => Some(s@),
        None => None,
    }
}

impl Agent {
    pub open spec fn view(&self) -> AgentV {
        AgentV {
            id: self.id@,
            kind: self.kind@,
            tool_tokens: self.tool_tokens as nat,
            calls: self.calls as nat,
            transcript: opt_view(self.transcript),
        }
    }
}

impl Read {
    pub open spec fn view(&self) -> ReadV {
        ReadV { file: self.file@, tokens: self.tokens as nat, agent: self.agent@ }
    }
}

impl Tally {
    pub open spec fn view(&self) -> TallyV {
        TallyV {
            session: self.session@,
            harness: self.harness@,
            label: self.label@,
            agents: self.agents@.map_values(|a: Agent| a.view()),
            reads: self.reads@.map_values(|r: Read| r.view()),
            guarded: self.guarded@,
        }
    }
}

/// `data[key]` as text, empty when it is not a string.
pub open spec fn text_of(e: Event, key: Seq<char>) -> Seq<char> {
    match e.data.at(key).str_of() {
        Some(s) => s,
        None => seq![],
    }
}

/// `data[key]` as a count, 0 when it is not a whole number that fits.
pub open spec fn number_of(e: Event, key: Seq<char>) -> nat {
    match e.data.at(key).u64_of() {
        Some(n) => if n <= usize::MAX {
            n as nat
        } else {
            0
        },
        None => 0,
    }
}

/// Index of the agent `id`, or -1.
pub open spec fn agent_index(agents: Seq<AgentV>, id: Seq<char>) -> int
    decreases agents.len(),
{
    if agents.len() == 0 {
        -1
    } else if agents.last().id == id {
        let k = agent_index(agents.drop_last(), id);
        if k >= 0 {
            k
        } else {
            agents.len() - 1
        }
    } else {
        agent_index(agents.drop_last(), id)
    }
}

/// `agents` with `id` present: appended, fresh, when it was not.
pub open spec fn with_agent(agents: Seq<AgentV>, id: Seq<char>) -> Seq<AgentV> {
    if agent_index(agents, id) >= 0 {
        agents
    } else {
        agents.push(AgentV { id, kind: seq![], tool_tokens: 0, calls: 0, transcript: None })
    }
}

/// Index of `id` in `with_agent(agents, id)`.
pub open spec fn slot(agents: Seq<AgentV>, id: Seq<char>) -> int {
    if agent_index(agents, id) >= 0 {
        agent_index(agents, id)
    } else {
        agents.len() as int
    }
}

/// How one event changes the tally.
pub open spec fn step(t: TallyV, e: Event) -> TallyV {
    let ev = e.event@;
    if ev == "session_start"@ {
        let harness = if t.harness.len() == 0 {
            text_of(e, "harness"@)
        } else {
            t.harness
        };
        let agents = match e.data.at("transcript_path"@).str_of() {
            Some(p) => t.agents.update(0, AgentV { transcript: Some(p), ..t.agents[0] }),
            None => t.agents,
        };
        TallyV { harness, agents, ..t }
    } else if ev == "prompt"@ && t.label.len() == 0 {
        TallyV { label: join_spec(words_of(text_of(e, "text"@)), seq![' ']), ..t }
    } else if ev == "subagent_start"@ || ev == "subagent_stop"@ {
        let id = text_of(e, "agent"@);
        let agents = with_agent(t.agents, id);
        let k = slot(t.agents, id);
        let a = agents[k];
        let kind = if a.kind.len() == 0 {
            text_of(e, "type"@)
        } else {
            a.kind
        };
        let transcript = match e.data.at("transcript_path"@).str_of() {
            Some(p) => Some(p),
            None => a.transcript,
        };
        TallyV { agents: agents.update(k, AgentV { kind, transcript, ..a }), ..t }
    } else if ev == "tool"@ {
        let id = text_of(e, "agent"@);
        let tokens = number_of(e, "tokens"@);
        let agents = with_agent(t.agents, id);
        let k = slot(t.agents, id);
        let a = agents[k];
        let agents = agents.update(
            k,
            AgentV { tool_tokens: a.tool_tokens + tokens, calls: a.calls + 1, ..a },
        );
        let reads = if text_of(e, "tool"@) == "Read"@ {
            t.reads.push(ReadV { file: text_of(e, "file"@), tokens, agent: id })
        } else {
            t.reads
        };
        TallyV { agents, reads, ..t }
    } else if ev == "read_guarded"@ {
        TallyV {
            guarded: t.guarded.push(
                (number_of(e, "tokens"@) as usize, number_of(e, "shown"@) as usize),
            ),
            ..t
        }
    } else {
        t
    }
}

/// The tally of `evs` for `session`: the main thread first, then each
/// event in order.
pub open spec fn tally_spec(session: Seq<char>, evs: Seq<Event>) -> TallyV
    decreases evs.len(),
{
    if evs.len() == 0 {
        TallyV {
            session,
            harness: seq![],
            label: seq![],
            agents: seq![AgentV { id: seq![], kind: seq![], tool_tokens: 0, calls: 0, transcript: None }],
            reads: seq![],
            guarded: seq![],
        }
    } else {
        step(tally_spec(session, evs.drop_last()), evs.last())
    }
}

fn text(e: &Event, key: &str) -> (r: String)
    ensures
        r@ == text_of(*e, key@),
{
    match e.data.str_at(key) {
        Some(s) => string_of(&chars_of(s)),
        None => String::new(),
    }
}

fn number(e: &Event, key: &str) -> (r: usize)
    ensures
        r == number_of(*e, key@),
{
    match e.data.u64_at(key) {
        Some(n) => if n <= usize::MAX as u64 {
            n as usize
        } else {
            0
        },
        None => 0,
    }
}

pub open spec fn tokens_bounded(agents: Seq<AgentV>, total: nat, calls: nat) -> bool {
    forall|k: int|
        0 <= k < agents.len() ==> (#[trigger] agents[k]).tool_tokens <= total && agents[k].calls
            <= calls
}

impl Tally {
    /// Index of the agent `id`, added when it is new.
    fn agent(&mut self, id: &str) -> (k: usize)
        ensures
            final(self)@ == (TallyV { agents: with_agent(old(self)@.agents, id@), ..old(self)@ }),
            k == slot(old(self)@.agents, id@),
            k < final(self).agents.len(),
    {
        let mut i: usize = 0;
        let ghost agents = self@.agents;
        let mut found: Option<usize> = None;
        while i < self.agents.len()
            invariant
                i <= self.agents.len(),
                agents == self@.agents,
                found.is_none() ==> agent_index(agents.take(i as int), id@) == -1,
                found.is_some() ==> found.unwrap() < i && agent_index(agents.take(i as int), id@)
                    == found.unwrap(),
            decreases self.agents.len() - i,
        {
            proof {
                assert(agents.take(i + 1).drop_last() =~= agents.take(i as int));
                assert(agents.take(i + 1).last() == self.agents@[i as int].view());
            }
            if found.is_none() && str_eq(self.agents[i].id.as_str(), id) {
                found = Some(i);
            }
            i += 1;
        }
        proof {
            assert(agents.take(i as int) =~= agents);
            lemma_agent_index_bounds(agents, id@);
        }
        match found {
            Some(k) => k,
            None => {
                let ghost before = self.agents@;
                self.agents.push(
                    Agent {
                        id: string_of(&chars_of(id)),
                        kind: String::new(),
                        tool_tokens: 0,
                        calls: 0,
                        transcript: None,
                    },
                );
                proof {
                    assert(self@.agents =~= agents.push(
                        AgentV { id: id@, kind: seq![], tool_tokens: 0, calls: 0, transcript: None },
                    ));
                }
                self.agents.len() - 1
            },
        }
    }
}

proof fn lemma_agent_index_bounds(agents: Seq<AgentV>, id: Seq<char>)
    ensures
        -1 <= agent_index(agents, id) < agents.len(),
        agent_index(agents, id) >= 0 ==> agents[agent_index(agents, id)].id == id,
    decreases agents.len(),
{
    if agents.len() > 0 {
        lemma_agent_index_bounds(agents.drop_last(), id);
    }
}

proof fn lemma_step_bounded(t: TallyV, e: Event, before: nat, calls: nat)
    requires
        tokens_bounded(t.agents, before, calls),
        t.agents.len() > 0,
    ensures
        tokens_bounded(
            step(t, e).agents,
            before + (if e.event@ == "tool"@ {
                crate::usage::tokens_of(e)
            } else {
                0
            }),
            calls + 1,
        ),
        step(t, e).agents.len() > 0,
{
    reveal_strlit("tool");
    reveal_strlit("session_start");
    reveal_strlit("prompt");
    reveal_strlit("subagent_start");
    reveal_strlit("subagent_stop");
    reveal_strlit("read_guarded");
    lemma_agent_index_bounds(t.agents, text_of(e, "agent"@));
}

/// The context each agent of `session` took in, from its events.
pub fn tally(session: &str, events: &[Event]) -> (t: Tally)
    requires
        tool_tokens_spec(events@) <= usize::MAX,
    ensures
        t@ == tally_spec(session@, events@),
{
    let mut t = Tally {
        session: string_of(&chars_of(session)),
        harness: String::new(),
        label: String::new(),
        agents: Vec::new(),
        reads: Vec::new(),
        guarded: Vec::new(),
    };
    t.agent("");
    proof {
        reveal_strlit("");
        assert(""@.len() == 0);
        assert(""@ =~= Seq::<char>::empty());
        assert(agent_index(Seq::<AgentV>::empty(), ""@) == -1);
        assert(events@.take(0) =~= Seq::<Event>::empty());
        assert(t@.agents =~= seq![AgentV { id: seq![], kind: seq![], tool_tokens: 0, calls: 0, transcript: None }]);
        assert(t@ =~= tally_spec(session@, events@.take(0)));
    }
    let mut i: usize = 0;
    while i < events.len()
        invariant
            i <= events.len(),
            tool_tokens_spec(events@) <= usize::MAX,
            t@ == tally_spec(session@, events@.take(i as int)),
            t@.agents.len() > 0,
            tokens_bounded(t@.agents, tool_tokens_spec(events@.take(i as int)), i as nat),
        decreases events.len() - i,
    {
        let e = &events[i];
        let ghost before = t@;
        proof {
            reveal_strlit("tool");
            reveal_strlit("session_start");
            reveal_strlit("prompt");
            reveal_strlit("subagent_start");
            reveal_strlit("subagent_stop");
            reveal_strlit("read_guarded");
            reveal_strlit("Read");
            assert(events@.take(i + 1).drop_last() =~= events@.take(i as int));
            assert(events@.take(i + 1).last() == events@[i as int]);
            crate::usage::lemma_tool_tokens_mono(events@, i + 1);
            lemma_step_bounded(before, *e, tool_tokens_spec(events@.take(i as int)), i as nat);
        }
        if str_eq(e.event.as_str(), "session_start") {
            if t.harness.as_str().is_empty() {
                t.harness = text(e, "harness");
            }
            match e.data.str_at("transcript_path") {
                Some(p) => {
                    t.agents[0].transcript = Some(string_of(&chars_of(p)));
                },
                None => {},
            }
            proof {
                assert(t@.agents =~= step(before, *e).agents);
            }
        } else if str_eq(e.event.as_str(), "prompt") && t.label.as_str().is_empty() {
            let words = text(e, "text");
            let w = chars_of(words.as_str());
            t.label = string_of(&squash_ws(&w));
        } else if str_eq(e.event.as_str(), "subagent_start") || str_eq(
            e.event.as_str(),
            "subagent_stop",
        ) {
            let id = text(e, "agent");
            let k = t.agent(id.as_str());
            if t.agents[k].kind.as_str().is_empty() {
                let kind = text(e, "type");
                t.agents[k].kind = kind;
            }
            match e.data.str_at("transcript_path") {
                Some(p) => {
                    t.agents[k].transcript = Some(string_of(&chars_of(p)));
                },
                None => {},
            }
            proof {
                assert(t@.agents =~= step(before, *e).agents);
            }
        } else if str_eq(e.event.as_str(), "tool") {
            let agent = text(e, "agent");
            let tokens = number(e, "tokens");
            let k = t.agent(agent.as_str());
            proof {
                assert(t@.agents[k as int].tool_tokens <= tool_tokens_spec(events@.take(i as int)));
                assert(tokens <= crate::usage::tokens_of(events@[i as int]));
                assert(tool_tokens_spec(events@.take(i + 1)) == tool_tokens_spec(events@.take(i as int)) + crate::usage::tokens_of(events@[i as int]));
            }
            let tt = t.agents[k].tool_tokens + tokens;
            let calls = t.agents[k].calls + 1;
            t.agents[k].tool_tokens = tt;
            t.agents[k].calls = calls;
            if str_eq(text(e, "tool").as_str(), "Read") {
                t.reads.push(Read { file: text(e, "file"), tokens, agent });
            }
            proof {
                assert(t@.agents =~= step(before, *e).agents);
                assert(t@.reads =~= step(before, *e).reads);
            }
        } else if str_eq(e.event.as_str(), "read_guarded") {
            let a = number(e, "tokens");
            let b = number(e, "shown");
            t.guarded.push((a, b));
        }
        proof {
            assert(t@ =~= step(before, *e));
        }
        i += 1;
    }
    proof {
        assert(events@.take(events.len() as int) =~= events@);
    }
    t
}

} // verus!
