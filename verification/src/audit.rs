//! Context waste across sessions: what each source cost on the quota and
//! which of those costs the user can remove. Harness-agnostic: an adapter
//! walks its own transcript and feeds a `Collector` with API calls and the
//! blocks that entered the context; this module prices every block at its
//! size times the calls that followed (a block stays in the context and is
//! resent on each of them), adds sessions up, and ranks findings.

pub mod findings;
pub mod run;

use vstd::prelude::*;

use crate::fmt::{est_tokens, est_tokens_spec};
use crate::text::{has_prefix, str_eq, str_starts_with};
use crate::seqs::{
    lemma_filter_prefix, lemma_filter_step, lemma_total_bound, lemma_total_concat, lemma_total_prefix, lemma_total_push,
    lemma_total_update, total,
};
use crate::strset::{insert_all, minus, sorted_set, sorted_strs};
use crate::usage::ApiUsage;

verus! {

/// Who can change a source.
#[derive(Debug, Clone, Copy, PartialEq, Eq, Structural)]
pub enum Origin {
    /// User or project configuration: instructions, skills, MCP, hooks.
    Config,
    /// The harness itself: system prompt.
    Harness,
    /// The work: tool results, conversation.
    Work,
}

impl Default for Origin {
    fn default() -> (o: Origin)
        ensures
            o == Origin::Work,
    {
        Origin::Work
    }
}

pub struct Cost {
    pub source: String,
    pub origin: Origin,
    pub items: usize,
    /// Size when it entered the context (estimate).
    pub tokens: usize,
    /// `tokens` times the API calls that followed: its share of the quota.
    pub resent: usize,
}

#[verifier::ext_equal]
pub struct CostV {
    pub source: Seq<char>,
    pub origin: Origin,
    pub items: nat,
    pub tokens: nat,
    pub resent: nat,
}

impl Cost {
    pub open spec fn view(&self) -> CostV {
        CostV {
            source: self.source@,
            origin: self.origin,
            items: self.items as nat,
            tokens: self.tokens as nat,
            resent: self.resent as nat,
        }
    }

    pub fn copy(&self) -> (c: Cost)
        ensures
            c.view() == self.view(),
    {
        Cost {
            source: self.source.clone(),
            origin: self.origin,
            items: self.items,
            tokens: self.tokens,
            resent: self.resent,
        }
    }
}

pub open spec fn costs_view(v: Seq<Cost>) -> Seq<CostV> {
    v.map_values(|c: Cost| c.view())
}

pub struct HookError {
    pub command: String,
    pub message: String,
    pub count: usize,
    /// When the newest session it failed in was last written (seconds
    /// since the epoch).
    pub last_seen: Option<u64>,
}

#[verifier::ext_equal]
pub struct HookErrorV {
    pub command: Seq<char>,
    pub message: Seq<char>,
    pub count: nat,
    pub last_seen: Option<u64>,
}

impl HookError {
    pub open spec fn view(&self) -> HookErrorV {
        HookErrorV {
            command: self.command@,
            message: self.message@,
            count: self.count as nat,
            last_seen: self.last_seen,
        }
    }

    pub fn copy(&self) -> (h: HookError)
        ensures
            h.view() == self.view(),
    {
        HookError {
            command: self.command.clone(),
            message: self.message.clone(),
            count: self.count,
            last_seen: self.last_seen,
        }
    }
}

pub open spec fn hooks_view(v: Seq<HookError>) -> Seq<HookErrorV> {
    v.map_values(|h: HookError| h.view())
}

pub struct SessionAudit {
    pub usage: ApiUsage,
    pub costs: Vec<Cost>,
    pub hook_errors: Vec<HookError>,
    /// Sets of names; order and repeats carry no meaning.
    pub skills_listed: Vec<String>,
    pub skills_invoked: Vec<String>,
    /// False when the harness does not record which skills ran.
    pub skills_tracked: bool,
    pub mcp_servers: Vec<String>,
    pub subagent: bool,
    /// When the transcript was last written; set by the caller.
    pub seen: Option<u64>,
}

impl Default for SessionAudit {
    fn default() -> (s: SessionAudit)
        ensures
            s.usage == ApiUsage::new_spec(),
            s.costs@.len() == 0,
            s.hook_errors@.len() == 0,
            s.skills_listed@.len() == 0,
            s.skills_invoked@.len() == 0,
            !s.skills_tracked,
            s.mcp_servers@.len() == 0,
            !s.subagent,
            s.seen is None,
    {
        SessionAudit {
            usage: ApiUsage::new(),
            costs: Vec::new(),
            hook_errors: Vec::new(),
            skills_listed: Vec::new(),
            skills_invoked: Vec::new(),
            skills_tracked: false,
            mcp_servers: Vec::new(),
            subagent: false,
            seen: None,
        }
    }
}

/// One block of text in the context.
#[verifier::ext_equal]
pub struct BlockV {
    pub source: Seq<char>,
    pub origin: Origin,
    pub tokens: nat,
    pub items: nat,
    /// Listings report their entry count; other sources count occurrences.
    pub listing: bool,
    /// Sent on every call and never compacted away (system prompts).
    pub pinned: bool,
    /// API calls made before it entered the context.
    pub from: nat,
    /// Calls made before a compaction dropped it; `None` while still in.
    pub until: Option<nat>,
}

struct Block {
    source: String,
    origin: Origin,
    tokens: usize,
    items: usize,
    listing: bool,
    pinned: bool,
    from: usize,
    until: Option<usize>,
}

impl Block {
    spec fn view(&self) -> BlockV {
        BlockV {
            source: self.source@,
            origin: self.origin,
            tokens: self.tokens as nat,
            items: self.items as nat,
            listing: self.listing,
            pinned: self.pinned,
            from: self.from as nat,
            until: match self.until {
                Some(u) => Some(u as nat),
                None => None,
            },
        }
    }
}

/// What the first call sent beyond the blocks seen before it: the system
/// prompt and tool schemas, which transcripts do not record. Sent on every
/// call.
pub const FIXED_OVERHEAD: &'static str = "System prompt and tool schemas (from 1st call)";

/// Built by a harness adapter while it reads one transcript in order.
pub struct Collector {
    usage: ApiUsage,
    blocks: Vec<Block>,
    first_context: Option<usize>,
    pub audit: SessionAudit,
}

/// `bs` after a compaction at `now`: what was still in, and is not
/// pinned, stops being resent from then on.
pub open spec fn compact(bs: Seq<BlockV>, now: nat) -> Seq<BlockV> {
    bs.map_values(
        |b: BlockV|
            if b.until is None && !b.pinned {
                BlockV { until: Some(now), ..b }
            } else {
                b
            },
    )
}

/// Calls on which a block was resent, times its size.
pub open spec fn charged(b: BlockV, calls: nat) -> nat {
    let end = match b.until {
        Some(u) => u,
        None => calls,
    };
    if end > b.from {
        b.tokens * (end - b.from) as nat
    } else {
        0
    }
}


/// A compaction stops charging what came before it: a block still in and
/// not pinned is charged, at any later count of calls, only for the calls
/// up to the compaction; a pinned block, or one an earlier compaction
/// dropped (it keeps that earlier point), is charged as before; a later
/// compaction changes nothing more for it.
pub proof fn law_compaction_stops_charging(bs: Seq<BlockV>, m: nat, later: nat, n: nat, i: int)
    requires
        0 <= i < bs.len(),
        bs[i].from <= m,
        m <= later,
        later <= n,
        bs[i].until matches Some(u) ==> u <= m,
    ensures
        compact(bs, m).len() == bs.len(),
        charged(compact(bs, m)[i], n) == if bs[i].until is None && !bs[i].pinned {
            bs[i].tokens * (m - bs[i].from) as nat
        } else {
            charged(bs[i], n)
        },
        compact(compact(bs, m), later)[i] == if bs[i].pinned {
            bs[i]
        } else {
            compact(bs, m)[i]
        },
{
    assert(compact(bs, m)[i] == if bs[i].until is None && !bs[i].pinned {
        BlockV { until: Some(m), ..bs[i] }
    } else {
        bs[i]
    });
    let c = compact(bs, m);
    assert(compact(c, later)[i] == if c[i].until is None && !c[i].pinned {
        BlockV { until: Some(later), ..c[i] }
    } else {
        c[i]
    });
    if bs[i].until is None && !bs[i].pinned {
        if m > bs[i].from {
            assert(charged(c[i], n) == bs[i].tokens * (m - bs[i].from) as nat);
        } else {
            assert(bs[i].tokens * 0 == 0) by (nonlinear_arith);
        }
    }
}

/// A pinned block is never compacted away: whatever compactions follow,
/// it is charged its size on every call after it entered.
pub proof fn law_pinned_block_charged_on_every_call(bs: Seq<BlockV>, m: nat, n: nat, i: int)
    requires
        0 <= i < bs.len(),
        bs[i].pinned,
        bs[i].until is None,
        bs[i].from <= n,
    ensures
        compact(bs, m)[i] == bs[i],
        charged(compact(bs, m)[i], n) == bs[i].tokens * (n - bs[i].from) as nat,
{
    assert(compact(bs, m)[i] == bs[i]);
    if n == bs[i].from {
        assert(bs[i].tokens * 0 == 0) by (nonlinear_arith);
    }
}

/// Index of the first cost from `source`, or -1.
pub open spec fn cost_at(acc: Seq<CostV>, source: Seq<char>) -> int {
    if exists|k: int| 0 <= k < acc.len() && acc[k].source == source {
        choose|k: int|
            0 <= k < acc.len() && acc[k].source == source && forall|j: int|
                0 <= j < k ==> acc[j].source != source
    } else {
        -1
    }
}

/// One block added to the costs by source.
pub open spec fn add_block(acc: Seq<CostV>, b: BlockV, calls: nat) -> Seq<CostV> {
    let k = cost_at(acc, b.source);
    if k >= 0 {
        let c = acc[k];
        acc.update(
            k,
            CostV {
                tokens: c.tokens + b.tokens,
                items: if b.listing {
                    if c.items >= b.items {
                        c.items
                    } else {
                        b.items
                    }
                } else {
                    c.items + b.items
                },
                resent: c.resent + charged(b, calls),
                ..c
            },
        )
    } else {
        acc.push(
            CostV {
                source: b.source,
                origin: b.origin,
                items: b.items,
                tokens: b.tokens,
                resent: charged(b, calls),
            },
        )
    }
}

pub open spec fn fold_blocks(acc: Seq<CostV>, bs: Seq<BlockV>, calls: nat) -> Seq<CostV>
    decreases bs.len(),
{
    if bs.len() == 0 {
        acc
    } else {
        add_block(fold_blocks(acc, bs.drop_last(), calls), bs.last(), calls)
    }
}

/// Tokens of the blocks that entered before the first call.
pub open spec fn before_first(bs: Seq<BlockV>) -> nat
    decreases bs.len(),
{
    if bs.len() == 0 {
        0
    } else {
        before_first(bs.drop_last()) + if bs.last().from == 0 {
            bs.last().tokens
        } else {
            0
        }
    }
}

/// What the first call sent beyond the blocks known before it.
pub open spec fn fixed_of(bs: Seq<BlockV>, first: Option<usize>) -> nat {
    let f: int = match first {
        Some(x) => x as int,
        None => 0,
    };
    if f > before_first(bs) {
        (f - before_first(bs)) as nat
    } else {
        0
    }
}

/// The costs of one session: the fixed overhead first when there is one,
/// then one entry per source in the order sources first appeared.
pub open spec fn finish_costs(bs: Seq<BlockV>, first: Option<usize>, calls: nat) -> Seq<CostV> {
    let fixed = fixed_of(bs, first);
    let init = if fixed > 0 {
        seq![
            CostV {
                source: FIXED_OVERHEAD@,
                origin: Origin::Harness,
                items: 1,
                tokens: fixed,
                resent: fixed * calls,
            },
        ]
    } else {
        seq![]
    };
    fold_blocks(init, bs, calls)
}

pub open spec fn total_tokens(bs: Seq<BlockV>) -> nat
    decreases bs.len(),
{
    if bs.len() == 0 {
        0
    } else {
        total_tokens(bs.drop_last()) + bs.last().tokens
    }
}

pub open spec fn total_items(bs: Seq<BlockV>) -> nat
    decreases bs.len(),
{
    if bs.len() == 0 {
        0
    } else {
        total_items(bs.drop_last()) + bs.last().items
    }
}

pub open spec fn sum_by(s: Seq<CostV>, f: spec_fn(CostV) -> nat) -> nat
    decreases s.len(),
{
    if s.len() == 0 {
        0
    } else {
        sum_by(s.drop_last(), f) + f(s.last())
    }
}

proof fn lemma_sum_update(s: Seq<CostV>, f: spec_fn(CostV) -> nat, k: int, x: CostV)
    requires
        0 <= k < s.len(),
    ensures
        sum_by(s.update(k, x), f) + f(s[k]) == sum_by(s, f) + f(x),
    decreases s.len(),
{
    if k < s.len() - 1 {
        lemma_sum_update(s.drop_last(), f, k, x);
        assert(s.update(k, x).drop_last() =~= s.drop_last().update(k, x));
    } else {
        assert(s.update(k, x).drop_last() =~= s.drop_last());
    }
}

proof fn lemma_sum_bounds(s: Seq<CostV>, f: spec_fn(CostV) -> nat, k: int)
    requires
        0 <= k < s.len(),
    ensures
        f(s[k]) <= sum_by(s, f),
    decreases s.len(),
{
    if k < s.len() - 1 {
        lemma_sum_bounds(s.drop_last(), f, k);
    }
}

pub open spec fn tokens_f() -> spec_fn(CostV) -> nat {
    |c: CostV| c.tokens
}

pub open spec fn items_f() -> spec_fn(CostV) -> nat {
    |c: CostV| c.items
}

pub open spec fn resent_f() -> spec_fn(CostV) -> nat {
    |c: CostV| c.resent
}

impl Collector {
    pub closed spec fn calls(&self) -> nat {
        self.usage.calls as nat
    }

    pub closed spec fn usage_now(&self) -> ApiUsage {
        self.usage
    }

    pub closed spec fn blocks(&self) -> Seq<BlockV> {
        self.blocks@.map_values(|b: Block| b.view())
    }

    pub closed spec fn first_context(&self) -> Option<usize> {
        self.first_context
    }

    pub closed spec fn audit_of(&self) -> SessionAudit {
        self.audit
    }

    /// Every block entered at or before the current call and left no
    /// later than it.
    pub closed spec fn wf(&self) -> bool {
        &&& self.first_context is Some <==> self.usage.calls > 0
        &&& forall|i: int|
            0 <= i < self.blocks@.len() ==> {
                &&& (#[trigger] self.blocks@[i]).from <= self.usage.calls
                &&& match self.blocks@[i].until {
                    Some(u) => self.blocks@[i].from <= u <= self.usage.calls,
                    None => true,
                }
            }
    }

    pub fn new() -> (c: Collector)
        ensures
            c.wf(),
            c.calls() == 0,
            c.blocks().len() == 0,
            c.first_context() is None,
            c.usage_now() == ApiUsage::new_spec(),
            c.audit_of().costs@.len() == 0,
            c.audit_of().hook_errors@.len() == 0,
            c.audit_of().usage == ApiUsage::new_spec(),
            c.audit_of().skills_listed@.len() == 0,
            c.audit_of().skills_invoked@.len() == 0,
            !c.audit_of().skills_tracked,
            c.audit_of().mcp_servers@.len() == 0,
            !c.audit_of().subagent,
            c.audit_of().seen is None,
    {
        Collector {
            usage: ApiUsage::new(),
            blocks: Vec::new(),
            first_context: None,
            audit: SessionAudit::default(),
        }
    }

    /// One API call: `context` tokens sent, `cached` of them from the
    /// cache, `output` tokens back.
    pub fn call(&mut self, context: usize, cached: usize, output: usize)
        requires
            old(self).wf(),
            old(self).usage_now().fits(context, cached, output),
        ensures
            final(self).wf(),
            final(self).usage_now() == old(self).usage_now().after_call(context, cached, output),
            final(self).calls() == old(self).calls() + 1,
            final(self).first_context() == match old(self).first_context() {
                Some(f) => Some(f),
                None => Some(context),
            },
            final(self).blocks() == old(self).blocks(),
            final(self).audit_of() == old(self).audit_of(),
    {
        if self.first_context.is_none() {
            self.first_context = Some(context);
        }
        self.usage.add_call(context, cached, output);
        proof {
            assert(self.blocks() =~= old(self).blocks());
        }
    }

    fn push(&mut self, source: &str, origin: Origin, text: &str, items: usize, listing: bool, pinned: bool)
        requires
            old(self).wf(),
        ensures
            final(self).wf(),
            final(self).blocks() == if est_tokens_spec(text@) > 0 {
                old(self).blocks().push(
                    BlockV {
                        source: source@,
                        origin,
                        tokens: est_tokens_spec(text@),
                        items: items as nat,
                        listing,
                        pinned,
                        from: old(self).calls(),
                        until: None,
                    },
                )
            } else {
                old(self).blocks()
            },
            final(self).usage_now() == old(self).usage_now(),
            final(self).first_context() == old(self).first_context(),
            final(self).audit_of() == old(self).audit_of(),
    {
        let tokens = est_tokens(text);
        if tokens > 0 {
            let b = Block {
                source: source.to_string(),
                origin,
                tokens,
                items,
                listing,
                pinned,
                from: self.usage.calls,
                until: None,
            };
            self.blocks.push(b);
            proof {
                assert(self.blocks() =~= old(self).blocks().push(b.view()));
            }
        }
    }

    /// One more block of `text` from `source` entered the context now.
    pub fn add(&mut self, source: &str, origin: Origin, text: &str)
        requires
            old(self).wf(),
        ensures
            final(self).wf(),
            final(self).blocks() == if est_tokens_spec(text@) > 0 {
                old(self).blocks().push(
                    BlockV {
                        source: source@,
                        origin,
                        tokens: est_tokens_spec(text@),
                        items: 1,
                        listing: false,
                        pinned: false,
                        from: old(self).calls(),
                        until: None,
                    },
                )
            } else {
                old(self).blocks()
            },
            final(self).usage_now() == old(self).usage_now(),
            final(self).first_context() == old(self).first_context(),
            final(self).audit_of() == old(self).audit_of(),
    {
        self.push(source, origin, text, 1, false, false);
    }

    /// A listing of `count` entries (skills, tools, agents) entered the
    /// context.
    pub fn add_listing(&mut self, source: &str, origin: Origin, text: &str, count: usize)
        requires
            old(self).wf(),
        ensures
            final(self).wf(),
            final(self).blocks() == if est_tokens_spec(text@) > 0 {
                old(self).blocks().push(
                    BlockV {
                        source: source@,
                        origin,
                        tokens: est_tokens_spec(text@),
                        items: count as nat,
                        listing: true,
                        pinned: false,
                        from: old(self).calls(),
                        until: None,
                    },
                )
            } else {
                old(self).blocks()
            },
            final(self).usage_now() == old(self).usage_now(),
            final(self).first_context() == old(self).first_context(),
            final(self).audit_of() == old(self).audit_of(),
    {
        self.push(source, origin, text, count, true, false);
    }

    /// Text sent with every call that compaction never removes.
    pub fn add_pinned(&mut self, source: &str, origin: Origin, text: &str)
        requires
            old(self).wf(),
        ensures
            final(self).wf(),
            final(self).blocks() == if est_tokens_spec(text@) > 0 {
                old(self).blocks().push(
                    BlockV {
                        source: source@,
                        origin,
                        tokens: est_tokens_spec(text@),
                        items: 1,
                        listing: false,
                        pinned: true,
                        from: old(self).calls(),
                        until: None,
                    },
                )
            } else {
                old(self).blocks()
            },
            final(self).usage_now() == old(self).usage_now(),
            final(self).first_context() == old(self).first_context(),
            final(self).audit_of() == old(self).audit_of(),
    {
        self.push(source, origin, text, 1, false, true);
    }

    /// The harness summarised the context: everything so far stops being
    /// resent.
    pub fn compacted(&mut self)
        requires
            old(self).wf(),
        ensures
            final(self).wf(),
            final(self).blocks() == compact(old(self).blocks(), old(self).calls()),
            final(self).usage_now() == old(self).usage_now(),
            final(self).first_context() == old(self).first_context(),
            final(self).audit_of() == old(self).audit_of(),
    {
        let now = self.usage.calls;
        let ghost start = self.blocks();
        let mut i: usize = 0;
        while i < self.blocks.len()
            invariant
                self.wf(),
                self.usage == old(self).usage,
                self.first_context == old(self).first_context,
                self.audit == old(self).audit,
                now == self.usage.calls,
                start == old(self).blocks(),
                i <= self.blocks@.len(),
                self.blocks@.len() == start.len(),
                forall|k: int| 0 <= k < i ==> #[trigger] self.blocks()[k] == compact(start, now as nat)[k],
                forall|k: int| i <= k < start.len() ==> #[trigger] self.blocks()[k] == start[k],
            decreases start.len() - i,
        {
            proof {
                assert(self.blocks()[i as int] == start[i as int]);
            }
            let ghost pre = self.blocks@;
            let ghost prev = self.blocks();
            if self.blocks[i].until.is_none() && !self.blocks[i].pinned {
                self.blocks[i].until = Some(now);
            }
            proof {
                assert(pre[i as int].view() == start[i as int]);
                assert forall|k: int| 0 <= k < self.blocks@.len() && k != i implies #[trigger] self.blocks()[k] == prev[k] by {
                    assert(self.blocks@[k] == pre[k]);
                }
                assert(self.blocks@[i as int].view() =~= compact(start, now as nat)[i as int]);
                assert(self.blocks()[i as int] == compact(start, now as nat)[i as int]);
            }
            i += 1;
        }
        proof {
            assert(self.blocks() =~= compact(start, now as nat));
        }
    }

    /// A hook failed with `message`; counted per command.
    pub fn hook_error(&mut self, command: &str, message: &str)
        requires
            old(self).wf(),
            hook_room(hooks_view(old(self).audit_of().hook_errors@), command@),
        ensures
            final(self).wf(),
            hooks_view(final(self).audit_of().hook_errors@) == bump_hook(
                hooks_view(old(self).audit_of().hook_errors@),
                command@,
                message@,
            ),
            final(self).blocks() == old(self).blocks(),
            final(self).usage_now() == old(self).usage_now(),
            final(self).first_context() == old(self).first_context(),
            final(self).audit_of().costs == old(self).audit_of().costs,
    {
        add_hook_error(&mut self.audit.hook_errors, command, message);
    }

    /// The session's audit; `None` when it made no API call. Costs are
    /// one per source, in the order sources first appeared, after the
    /// fixed overhead when the first call sent more than the blocks seen
    /// before it.
    #[verifier::rlimit(40)]
    pub fn finish(self) -> (r: Option<SessionAudit>)
        requires
            self.wf(),
            finish_fits(self),
        ensures
            self.calls() == 0 <==> r is None,
            match r {
                Some(a) => {
                    &&& costs_view(a.costs@) == finish_costs(
                        self.blocks(),
                        self.first_context(),
                        self.calls(),
                    )
                    &&& a.usage == self.usage_now()
                    &&& a.hook_errors == self.audit_of().hook_errors
                    &&& a.skills_listed == self.audit_of().skills_listed
                    &&& a.skills_invoked == self.audit_of().skills_invoked
                    &&& a.skills_tracked == self.audit_of().skills_tracked
                    &&& a.mcp_servers == self.audit_of().mcp_servers
                    &&& a.subagent == self.audit_of().subagent
                    &&& a.seen == self.audit_of().seen
                },
                None => true,
            },
    {
        let calls = self.usage.calls;
        if calls == 0 {
            return None;
        }
        let ghost bs = self.blocks();
        let mut first_tokens: usize = 0;
        let mut i: usize = 0;
        proof {
            lemma_before_first_le_total(bs, 0);
        }
        while i < self.blocks.len()
            invariant
                bs == self.blocks(),
                i <= self.blocks@.len(),
                first_tokens == before_first(bs.take(i as int)),
                total_tokens(bs) <= usize::MAX,
            decreases self.blocks@.len() - i,
        {
            proof {
                assert(bs.take(i + 1).drop_last() =~= bs.take(i as int));
                lemma_before_first_le_total(bs, i + 1);
            }
            if self.blocks[i].from == 0 {
                first_tokens = first_tokens + self.blocks[i].tokens;
            }
            i += 1;
        }
        proof {
            assert(bs.take(bs.len() as int) =~= bs);
        }
        let first = match self.first_context {
            Some(f) => f,
            None => 0,
        };
        let fixed: usize = if first > first_tokens {
            first - first_tokens
        } else {
            0
        };
        let mut by: Vec<Cost> = Vec::new();
        proof {
            lemma_mul_le(fixed as nat, (total_tokens(bs) + first) as nat, calls as nat);
        }
        if fixed > 0 {
            by.push(
                Cost {
                    source: FIXED_OVERHEAD.to_string(),
                    origin: Origin::Harness,
                    items: 1,
                    tokens: fixed,
                    resent: fixed * calls,
                },
            );
        }
        let ghost init = costs_view(by@);
        proof {
            assert(bs.take(0) =~= Seq::<BlockV>::empty());
            assert(fixed == fixed_of(bs, self.first_context));
            assert(total_tokens(bs.take(0)) == 0);
            assert(total_items(bs.take(0)) == 0);
            if fixed > 0 {
                assert(init.drop_last() =~= Seq::<CostV>::empty());
                reveal_with_fuel(sum_by, 2);
                assert(sum_by(init, tokens_f()) == fixed);
                assert(sum_by(init, items_f()) == 1);
                assert(sum_by(init, resent_f()) == fixed * calls);
            } else {
                assert(init =~= Seq::<CostV>::empty());
            }
        }
        let mut j: usize = 0;
        while j < self.blocks.len()
            invariant
                bs == self.blocks(),
                self.wf(),
                calls == self.usage.calls,
                finish_fits(self),
                fixed <= first,
                first == match self.first_context {
                    Some(f) => f,
                    None => 0,
                },
                j <= self.blocks@.len(),
                costs_view(by@) == fold_blocks(init, bs.take(j as int), calls as nat),
                sum_by(costs_view(by@), tokens_f()) <= fixed + total_tokens(bs.take(j as int)),
                sum_by(costs_view(by@), items_f()) <= 1 + total_items(bs.take(j as int)),
                sum_by(costs_view(by@), resent_f()) <= (fixed + total_tokens(bs.take(j as int)))
                    * calls,
            decreases self.blocks@.len() - j,
        {
            proof {
                assert(bs.take(j + 1).drop_last() =~= bs.take(j as int));
                assert(bs.take(j + 1).last() == self.blocks@[j as int].view());
                lemma_total_bounds(bs, j as int, first as nat, fixed as nat, calls as nat);
                lemma_mul_add(fixed as nat, total_tokens(bs.take(j as int)), self.blocks@[j as int].tokens as nat, calls as nat);
            }
            fold_one(&mut by, &self.blocks[j], calls);
            j += 1;
        }
        proof {
            assert(bs.take(bs.len() as int) =~= bs);
            let fx = fixed_of(bs, self.first_context);
            assert(fx == fixed);
            let i2 = if fx > 0 {
                seq![
                    CostV {
                        source: FIXED_OVERHEAD@,
                        origin: Origin::Harness,
                        items: 1,
                        tokens: fx,
                        resent: fx * calls as nat,
                    },
                ]
            } else {
                seq![]
            };
            assert(init =~= i2);
            assert(costs_view(by@) == finish_costs(bs, self.first_context, calls as nat));
        }
        let mut audit = self.audit;
        audit.usage = self.usage;
        audit.costs = by;
        Some(audit)
    }
}

/// One block added to the costs by source.
#[verifier::rlimit(40)]
fn fold_one(by: &mut Vec<Cost>, b: &Block, calls: usize)
    requires
        b.from <= calls,
        match b.until {
            Some(u) => b.from <= u <= calls,
            None => true,
        },
        sum_by(costs_view(old(by)@), tokens_f()) + b.tokens <= usize::MAX,
        sum_by(costs_view(old(by)@), items_f()) + b.items <= usize::MAX,
        sum_by(costs_view(old(by)@), resent_f()) + b.tokens * calls <= usize::MAX,
    ensures
        costs_view(final(by)@) == add_block(costs_view(old(by)@), b.view(), calls as nat),
        sum_by(costs_view(final(by)@), tokens_f()) == sum_by(costs_view(old(by)@), tokens_f())
            + b.tokens,
        sum_by(costs_view(final(by)@), items_f()) <= sum_by(costs_view(old(by)@), items_f())
            + b.items,
        sum_by(costs_view(final(by)@), resent_f()) <= sum_by(costs_view(old(by)@), resent_f())
            + b.tokens * calls,
{
    let ghost acc = costs_view(by@);
    let span: usize = match b.until {
        Some(u) => if u > b.from {
            u - b.from
        } else {
            0
        },
        None => calls - b.from,
    };
    proof {
        lemma_mul_le_right(b.tokens as nat, span as nat, calls as nat);
        lemma_charged_le(b.view(), calls as nat);
    }
    let charge: usize = b.tokens * span;
    proof {
        if span == 0 {
            assert(b.tokens * 0 == 0) by (nonlinear_arith);
        }
        assert(charge == charged(b.view(), calls as nat));
    }
    let k = find_cost(by, b.source.as_str());
    match k {
        Some(k) => {
            proof {
                lemma_sum_bounds(acc, tokens_f(), k as int);
                lemma_sum_bounds(acc, items_f(), k as int);
                lemma_sum_bounds(acc, resent_f(), k as int);
            }
            let c_items = by[k].items;
            let items = if b.listing {
                if c_items >= b.items {
                    c_items
                } else {
                    b.items
                }
            } else {
                c_items + b.items
            };
            let tokens = by[k].tokens + b.tokens;
            let resent = by[k].resent + charge;
            by[k].items = items;
            by[k].tokens = tokens;
            by[k].resent = resent;
            proof {
                let nc = CostV {
                    tokens: acc[k as int].tokens + b.tokens as nat,
                    items: items as nat,
                    resent: acc[k as int].resent + charge as nat,
                    ..acc[k as int]
                };
                assert(costs_view(by@) =~= acc.update(k as int, nc));
                lemma_sum_update(acc, tokens_f(), k as int, nc);
                lemma_sum_update(acc, items_f(), k as int, nc);
                lemma_sum_update(acc, resent_f(), k as int, nc);
            }
        },
        None => {
            let c = Cost {
                source: b.source.clone(),
                origin: b.origin,
                items: b.items,
                tokens: b.tokens,
                resent: charge,
            };
            by.push(c);
            proof {
                assert(costs_view(by@) =~= acc.push(c.view()));
                assert(costs_view(by@).drop_last() =~= acc);
            }
        },
    }
}

impl Default for Collector {
    fn default() -> (c: Collector)
        ensures
            c.wf(),
            c.calls() == 0,
            c.blocks().len() == 0,
            c.first_context() is None,
            c.usage_now() == ApiUsage::new_spec(),
            c.audit_of().costs@.len() == 0,
            c.audit_of().hook_errors@.len() == 0,
    {
        Collector::new()
    }
}

/// Sizes small enough that every sum `finish` makes fits in a `usize`.
pub closed spec fn finish_fits(c: Collector) -> bool {
    let first: nat = match c.first_context {
        Some(f) => f as nat,
        None => 0,
    };
    &&& (total_tokens(c.blocks()) + first) * c.calls() <= usize::MAX
    &&& total_tokens(c.blocks()) + first <= usize::MAX
    &&& total_items(c.blocks()) + 1 <= usize::MAX
}

proof fn lemma_mul_le(a: nat, b: nat, c: nat)
    requires
        a <= b,
    ensures
        a * c <= b * c,
{
    assert(a * c <= b * c) by (nonlinear_arith)
        requires
            a <= b,
    ;
}

proof fn lemma_mul_le_right(a: nat, b: nat, c: nat)
    requires
        b <= c,
    ensures
        a * b <= a * c,
{
    assert(a * b <= a * c) by (nonlinear_arith)
        requires
            b <= c,
    ;
}

proof fn lemma_mul_add(f: nat, t: nat, b: nat, c: nat)
    ensures
        (f + t) * c + b * c == (f + t + b) * c,
{
    assert((f + t) * c + b * c == (f + t + b) * c) by (nonlinear_arith);
}

proof fn lemma_charged_le(b: BlockV, calls: nat)
    requires
        b.from <= calls,
        match b.until {
            Some(u) => b.from <= u <= calls,
            None => true,
        },
    ensures
        charged(b, calls) <= b.tokens * calls,
{
    let end = match b.until {
        Some(u) => u,
        None => calls,
    };
    if end > b.from {
        lemma_mul_le_right(b.tokens, (end - b.from) as nat, calls);
    }
}

proof fn lemma_before_first_le_total(bs: Seq<BlockV>, i: int)
    requires
        0 <= i <= bs.len(),
    ensures
        before_first(bs.take(i)) <= total_tokens(bs.take(i)),
        total_tokens(bs.take(i)) <= total_tokens(bs),
    decreases bs.len() - i,
{
    if i < bs.len() {
        lemma_before_first_le_total(bs, i + 1);
        assert(bs.take(i + 1).drop_last() =~= bs.take(i));
    } else {
        assert(bs.take(i) =~= bs);
    }
    lemma_before_first_le_total_at(bs.take(i));
}

proof fn lemma_before_first_le_total_at(bs: Seq<BlockV>)
    ensures
        before_first(bs) <= total_tokens(bs),
    decreases bs.len(),
{
    if bs.len() > 0 {
        lemma_before_first_le_total_at(bs.drop_last());
    }
}

proof fn lemma_totals_prefix(bs: Seq<BlockV>, j: int)
    requires
        0 <= j < bs.len(),
    ensures
        total_tokens(bs.take(j + 1)) == total_tokens(bs.take(j)) + bs[j].tokens,
        total_items(bs.take(j + 1)) == total_items(bs.take(j)) + bs[j].items,
        total_tokens(bs.take(j + 1)) <= total_tokens(bs),
        total_items(bs.take(j + 1)) <= total_items(bs),
{
    assert(bs.take(j + 1).drop_last() =~= bs.take(j));
    lemma_before_first_le_total(bs, j + 1);
    lemma_items_prefix(bs, j + 1);
}

proof fn lemma_items_prefix(bs: Seq<BlockV>, i: int)
    requires
        0 <= i <= bs.len(),
    ensures
        total_items(bs.take(i)) <= total_items(bs),
    decreases bs.len() - i,
{
    if i < bs.len() {
        lemma_items_prefix(bs, i + 1);
        assert(bs.take(i + 1).drop_last() =~= bs.take(i));
    } else {
        assert(bs.take(i) =~= bs);
    }
}

proof fn lemma_total_bounds(bs: Seq<BlockV>, j: int, first: nat, fixed: nat, calls: nat)
    requires
        0 <= j < bs.len(),
        fixed <= first,
        (total_tokens(bs) + first) * calls <= usize::MAX,
        total_tokens(bs) + first <= usize::MAX,
        total_items(bs) + 1 <= usize::MAX,
    ensures
        fixed + total_tokens(bs.take(j + 1)) <= usize::MAX,
        (fixed + total_tokens(bs.take(j + 1))) * calls <= usize::MAX,
        1 + total_items(bs.take(j + 1)) <= usize::MAX,
{
    lemma_totals_prefix(bs, j);
    lemma_mul_le(fixed + total_tokens(bs.take(j + 1)), total_tokens(bs) + first, calls);
}

/// Index of the first cost from `source`.
fn find_cost(by: &Vec<Cost>, source: &str) -> (r: Option<usize>)
    ensures
        match r {
            Some(k) => k < by@.len() && cost_at(costs_view(by@), source@) == k,
            None => cost_at(costs_view(by@), source@) == -1,
        },
{
    let ghost acc = costs_view(by@);
    let mut i: usize = 0;
    while i < by.len()
        invariant
            acc == costs_view(by@),
            i <= by@.len(),
            forall|j: int| 0 <= j < i ==> acc[j].source != source@,
        decreases by@.len() - i,
    {
        if str_eq(by[i].source.as_str(), source) {
            proof {
                let k = cost_at(acc, source@);
                assert(acc[i as int].source == source@);
                if k != i {
                    if k < i {
                        assert(acc[k].source != source@);
                    } else {
                        assert(acc[i as int].source != source@);
                    }
                }
            }
            return Some(i);
        }
        i += 1;
    }
    None
}

/// Index of the first error from `command`, or -1.
pub open spec fn hook_at(hs: Seq<HookErrorV>, command: Seq<char>) -> int {
    if exists|k: int| 0 <= k < hs.len() && hs[k].command == command {
        choose|k: int|
            0 <= k < hs.len() && hs[k].command == command && forall|j: int|
                0 <= j < k ==> hs[j].command != command
    } else {
        -1
    }
}

/// One more failure of `command`: counted on its entry, or a new entry.
pub open spec fn bump_hook(hs: Seq<HookErrorV>, command: Seq<char>, message: Seq<char>) -> Seq<
    HookErrorV,
> {
    let k = hook_at(hs, command);
    if k >= 0 {
        hs.update(k, HookErrorV { count: hs[k].count + 1, ..hs[k] })
    } else {
        hs.push(HookErrorV { command, message, count: 1, last_seen: None })
    }
}

/// The count of `command`'s entry can grow by one.
pub open spec fn hook_room(hs: Seq<HookErrorV>, command: Seq<char>) -> bool {
    hook_at(hs, command) >= 0 ==> hs[hook_at(hs, command)].count < usize::MAX
}

fn add_hook_error(hs: &mut Vec<HookError>, command: &str, message: &str)
    requires
        hook_room(hooks_view(old(hs)@), command@),
    ensures
        hooks_view(final(hs)@) == bump_hook(hooks_view(old(hs)@), command@, message@),
{
    let ghost v = hooks_view(hs@);
    let mut i: usize = 0;
    while i < hs.len()
        invariant
            v == hooks_view(hs@),
            hs@ == old(hs)@,
            hook_room(v, command@),
            i <= hs@.len(),
            forall|j: int| 0 <= j < i ==> v[j].command != command@,
        decreases hs@.len() - i,
    {
        if str_eq(hs[i].command.as_str(), command) {
            proof {
                let k = hook_at(v, command@);
                assert(v[i as int].command == command@);
                if k != i {
                    if k < i {
                        assert(v[k].command != command@);
                    } else {
                        assert(v[i as int].command != command@);
                    }
                }
            }
            let n = hs[i].count + 1;
            hs[i].count = n;
            proof {
                assert(hooks_view(hs@) =~= bump_hook(v, command@, message@));
            }
            return;
        }
        i += 1;
    }
    let h = HookError {
        command: command.to_string(),
        message: message.to_string(),
        count: 1,
        last_seen: None,
    };
    hs.push(h);
    proof {
        assert(hooks_view(hs@) =~= bump_hook(v, command@, message@));
    }
}


// ---------------------------------------------------------------------------
// Sessions added up
// ---------------------------------------------------------------------------

/// What the harness loads today, to tell live findings from history. A
/// session loads its context when it starts, so findings from sessions
/// started before a config change keep showing what was removed since.
pub struct Now {
    /// Hook commands in today's config, when the adapter can read them.
    pub hooks: Option<Vec<String>>,
    /// The harness's newest session in any project: the latest context
    /// the global config produced.
    pub newest: Option<SessionAudit>,
    /// When it started (seconds since the epoch).
    pub newest_started: Option<u64>,
    /// Project root, to resolve relative instruction files.
    pub root: Option<String>,
    /// The user's home directory, to resolve `~/` instruction files.
    pub home: Option<String>,
}

impl Default for Now {
    fn default() -> (n: Now)
        ensures
            n.hooks is None,
            n.newest is None,
            n.newest_started is None,
            n.root is None,
            n.home is None,
    {
        Now { hooks: None, newest: None, newest_started: None, root: None, home: None }
    }
}

pub struct Report {
    pub sessions: usize,
    pub calls: usize,
    pub context_sent: usize,
    pub cached: usize,
    pub subagents: usize,
    pub subagent_context_sent: usize,
    pub costs: Vec<Cost>,
    pub hook_errors: Vec<HookError>,
    pub skills_listed: usize,
    pub skills_used: Vec<String>,
    pub skills_tracked: bool,
    /// Skills listed in the newest session and never invoked in any
    /// audited one.
    pub skills_unused: Vec<String>,
    /// MCP servers in the newest session, else in the audited ones.
    pub mcp_servers: Vec<String>,
    pub findings: Vec<findings::Finding>,
}

impl Default for Report {
    fn default() -> (r: Report)
        ensures
            r.sessions == 0 && r.calls == 0 && r.context_sent == 0 && r.cached == 0,
            r.subagents == 0 && r.subagent_context_sent == 0,
            r.costs@.len() == 0 && r.hook_errors@.len() == 0,
            r.skills_listed == 0 && r.skills_used@.len() == 0 && !r.skills_tracked,
            r.skills_unused@.len() == 0 && r.mcp_servers@.len() == 0 && r.findings@.len() == 0,
    {
        Report {
            sessions: 0,
            calls: 0,
            context_sent: 0,
            cached: 0,
            subagents: 0,
            subagent_context_sent: 0,
            costs: Vec::new(),
            hook_errors: Vec::new(),
            skills_listed: 0,
            skills_used: Vec::new(),
            skills_tracked: false,
            skills_unused: Vec::new(),
            mcp_servers: Vec::new(),
            findings: Vec::new(),
        }
    }
}

impl Report {
    /// Context resent on account of sources from `origin`.
    pub fn spent_by(&self, origin: Origin) -> (n: usize)
        requires
            sum_by(costs_view(self.costs@), resent_f()) <= usize::MAX,
        ensures
            n == sum_by(costs_view(self.costs@), resent_of(origin)),
    {
        let ghost cs = costs_view(self.costs@);
        let mut n: usize = 0;
        let mut i: usize = 0;
        while i < self.costs.len()
            invariant
                cs == costs_view(self.costs@),
                sum_by(cs, resent_f()) <= usize::MAX,
                i <= cs.len(),
                n == sum_by(cs.take(i as int), resent_of(origin)),
            decreases cs.len() - i,
        {
            proof {
                assert(cs.take(i + 1).drop_last() =~= cs.take(i as int));
                lemma_sum_le(cs.take(i + 1), origin);
                lemma_sum_prefix(cs, resent_f(), i + 1);
                assert(cs.take(i + 1).last() == self.costs@[i as int].view());
                assert(sum_by(cs.take(i + 1), resent_of(origin)) == n + (resent_of(origin))(
                    self.costs@[i as int].view(),
                ));
            }
            if self.costs[i].origin == origin {
                n = n + self.costs[i].resent;
            }
            i += 1;
        }
        proof {
            assert(cs.take(cs.len() as int) =~= cs);
        }
        n
    }

    /// Context no source accounts for: thinking, and estimate error.
    pub fn unexplained(&self) -> (n: usize)
        ensures
            n == if self.context_sent >= sum_by(costs_view(self.costs@), resent_f()) {
                self.context_sent - sum_by(costs_view(self.costs@), resent_f())
            } else {
                0
            },
    {
        let ghost cs = costs_view(self.costs@);
        let mut total: usize = 0;
        let mut over = false;
        let mut i: usize = 0;
        while i < self.costs.len()
            invariant
                cs == costs_view(self.costs@),
                i <= cs.len(),
                !over ==> total == sum_by(cs.take(i as int), resent_f()) && total <= self.context_sent,
                over ==> sum_by(cs.take(i as int), resent_f()) > self.context_sent,
            decreases cs.len() - i,
        {
            proof {
                assert(cs.take(i + 1).drop_last() =~= cs.take(i as int));
                assert(cs.take(i + 1).last() == self.costs@[i as int].view());
            }
            if !over {
                let r = self.costs[i].resent;
                if r <= self.context_sent - total {
                    total = total + r;
                } else {
                    over = true;
                }
            }
            i += 1;
        }
        proof {
            assert(cs.take(cs.len() as int) =~= cs);
        }
        if over {
            0
        } else {
            self.context_sent - total
        }
    }
}

pub open spec fn resent_of(origin: Origin) -> spec_fn(CostV) -> nat {
    |c: CostV|
        if c.origin == origin {
            c.resent
        } else {
            0
        }
}

proof fn lemma_sum_le(s: Seq<CostV>, origin: Origin)
    ensures
        sum_by(s, resent_of(origin)) <= sum_by(s, resent_f()),
    decreases s.len(),
{
    if s.len() > 0 {
        lemma_sum_le(s.drop_last(), origin);
    }
}

proof fn lemma_sum_prefix(s: Seq<CostV>, f: spec_fn(CostV) -> nat, i: int)
    requires
        0 <= i <= s.len(),
    ensures
        sum_by(s.take(i), f) <= sum_by(s, f),
    decreases s.len() - i,
{
    if i < s.len() {
        lemma_sum_prefix(s, f, i + 1);
        assert(s.take(i + 1).drop_last() =~= s.take(i));
    } else {
        assert(s.take(i) =~= s);
    }
}


// ---------------------------------------------------------------------------
// Transcripts
// ---------------------------------------------------------------------------

/// A session transcript a harness wrote. Subagent transcripts carry the
/// id of the session that spawned them. Times are seconds since the epoch.
pub struct Transcript {
    pub path: String,
    pub id: String,
    pub parent: Option<String>,
    /// When the session began: the harness loads its context then, so a
    /// config change only shows in sessions started after it.
    pub started: u64,
    pub modified: u64,
}

#[verifier::ext_equal]
pub struct TranscriptV {
    pub path: Seq<char>,
    pub id: Seq<char>,
    pub parent: Option<Seq<char>>,
    pub started: u64,
    pub modified: u64,
}

impl Transcript {
    pub open spec fn view(&self) -> TranscriptV {
        TranscriptV {
            path: self.path@,
            id: self.id@,
            parent: match self.parent {
                Some(p) => Some(p@),
                None => None,
            },
            started: self.started,
            modified: self.modified,
        }
    }

    pub fn copy(&self) -> (t: Transcript)
        ensures
            t.view() == self.view(),
    {
        Transcript {
            path: self.path.clone(),
            id: self.id.clone(),
            parent: match &self.parent {
                Some(p) => Some(p.clone()),
                None => None,
            },
            started: self.started,
            modified: self.modified,
        }
    }
}

pub open spec fn transcripts_view(v: Seq<Transcript>) -> Seq<TranscriptV> {
    v.map_values(|t: Transcript| t.view())
}

pub open spec fn is_top(t: TranscriptV) -> bool {
    t.parent is None
}

pub open spec fn top_pred() -> spec_fn(TranscriptV) -> bool {
    |t: TranscriptV| is_top(t)
}

/// Spawned by one of the sessions with these ids.
pub open spec fn spawned_by(ids: Seq<Seq<char>>) -> spec_fn(TranscriptV) -> bool {
    |t: TranscriptV|
        match t.parent {
            Some(p) => ids.contains(p),
            None => false,
        }
}

/// `limit` top-level sessions from the front of `sorted`, then the
/// subagents they spawned, in `sorted` order.
pub open spec fn select_spec(sorted: Seq<TranscriptV>, limit: nat) -> Seq<TranscriptV> {
    let tops = sorted.filter(top_pred());
    let top = if limit <= tops.len() {
        tops.take(limit as int)
    } else {
        tops
    };
    let ids = top.map_values(|t: TranscriptV| t.id);
    top + sorted.filter(spawned_by(ids))
}

/// Transcripts ordered newest write first; equal times keep their order.
pub open spec fn by_modified(all: Seq<TranscriptV>, r: Seq<usize>) -> bool {
    crate::order::num_order(r, all.map_values(|t: TranscriptV| t.modified as u128), true)
}

/// The `limit` newest top-level sessions plus the subagents they spawned.
pub fn select(all: Vec<Transcript>, limit: usize) -> (out: Vec<Transcript>)
    ensures
        exists|r: Seq<usize>|
            by_modified(transcripts_view(all@), r) && transcripts_view(out@) == select_spec(
                r.map_values(|i: usize| transcripts_view(all@)[i as int]),
                limit as nat,
            ),
{
    let ghost av = transcripts_view(all@);
    let mut keys: Vec<u128> = Vec::new();
    let mut i: usize = 0;
    while i < all.len()
        invariant
            i <= all@.len(),
            keys@ =~= all@.take(i as int).map_values(|t: Transcript| t.modified as u128),
        decreases all@.len() - i,
    {
        keys.push(all[i].modified as u128);
        proof {
            assert(all@.take(i + 1).map_values(|t: Transcript| t.modified as u128) =~= all@.take(
                i as int,
            ).map_values(|t: Transcript| t.modified as u128).push(all@[i as int].modified as u128));
        }
        i += 1;
    }
    proof {
        assert(all@.take(all@.len() as int) =~= all@);
        assert(keys@ =~= av.map_values(|t: TranscriptV| t.modified as u128));
    }
    let r = crate::order::order_by_num(&keys, true);
    let ghost sorted = r@.map_values(|i: usize| av[i as int]);
    // The top-level sessions, newest first, up to `limit`.
    let mut top: Vec<Transcript> = Vec::new();
    let mut j: usize = 0;
    let ghost pred = top_pred();
    while j < r.len() && top.len() < limit
        invariant
            av == transcripts_view(all@),
            sorted == r@.map_values(|i: usize| av[i as int]),
            crate::order::is_order(r@, all@.len()),
            j <= r@.len(),
            pred == top_pred(),
            transcripts_view(top@) == sorted.take(j as int).filter(pred),
            top@.len() <= limit,
        decreases r@.len() - j,
    {
        let t = &all[r[j]];
        proof {
            assert(sorted[j as int] == t.view());
            lemma_filter_step(sorted, pred, j as int);
        }
        if t.parent.is_none() {
            let c = t.copy();
            let ghost before = top@;
            top.push(c);
            proof {
                assert(transcripts_view(top@) =~= transcripts_view(before).push(c.view()));
                assert(transcripts_view(top@) =~= sorted.take(j as int).filter(pred).push(t.view()));
            }
        } else {
            proof {
                assert(transcripts_view(top@) =~= sorted.take(j as int).filter(pred));
            }
        }
        j += 1;
    }
    proof {
        let tops = sorted.filter(pred);
        lemma_filter_prefix(sorted, pred, j as int);
        if top@.len() < limit {
            assert(j == r@.len());
            assert(sorted.take(j as int) =~= sorted);
        }
        assert(transcripts_view(top@) == if limit <= tops.len() {
            tops.take(limit as int)
        } else {
            tops
        });
    }
    let ghost ids = transcripts_view(top@).map_values(|t: TranscriptV| t.id);
    let ghost sub = spawned_by(ids);
    let ghost top_view = transcripts_view(top@);
    let mut subs: Vec<Transcript> = Vec::new();
    let mut k: usize = 0;
    while k < r.len()
        invariant
            av == transcripts_view(all@),
            sorted == r@.map_values(|i: usize| av[i as int]),
            crate::order::is_order(r@, all@.len()),
            k <= r@.len(),
            top_view == transcripts_view(top@),
            ids == top_view.map_values(|t: TranscriptV| t.id),
            sub == spawned_by(ids),
            transcripts_view(subs@) == sorted.take(k as int).filter(sub),
        decreases r@.len() - k,
    {
        let t = &all[r[k]];
        proof {
            assert(sorted[k as int] == t.view());
            lemma_filter_step(sorted, sub, k as int);
        }
        let keep = match &t.parent {
            Some(p) => has_id(&top, p.as_str()),
            None => false,
        };
        if keep {
            let c = t.copy();
            let ghost before = subs@;
            subs.push(c);
            proof {
                assert(transcripts_view(subs@) =~= transcripts_view(before).push(c.view()));
                assert(transcripts_view(subs@) =~= sorted.take(k as int).filter(sub).push(t.view()));
            }
        } else {
            proof {
                assert(transcripts_view(subs@) =~= sorted.take(k as int).filter(sub));
            }
        }
        k += 1;
    }
    proof {
        assert(sorted.take(r@.len() as int) =~= sorted);
    }
    let ghost top_len = top@.len();
    let mut out = top;
    let mut m: usize = 0;
    while m < subs.len()
        invariant
            m <= subs@.len(),
            transcripts_view(out@) == top_view + transcripts_view(subs@).take(m as int),
        decreases subs@.len() - m,
    {
        let c = subs[m].copy();
        let ghost before = out@;
        out.push(c);
        proof {
            assert(transcripts_view(out@) =~= transcripts_view(before).push(c.view()));
            assert(transcripts_view(subs@).take(m + 1) =~= transcripts_view(subs@).take(m as int).push(c.view()));
            assert(transcripts_view(out@) =~= top_view + transcripts_view(subs@).take(m + 1));
        }
        m += 1;
    }
    proof {
        assert(transcripts_view(subs@).take(subs@.len() as int) =~= transcripts_view(subs@));
        assert(transcripts_view(out@) =~= select_spec(sorted, limit as nat));
        assert(by_modified(av, r@));
    }
    out
}

/// Some transcript in `v` has `id`.
fn has_id(v: &Vec<Transcript>, id: &str) -> (r: bool)
    ensures
        r == transcripts_view(v@).map_values(|t: TranscriptV| t.id).contains(id@),
{
    let ghost ids = transcripts_view(v@).map_values(|t: TranscriptV| t.id);
    let mut i: usize = 0;
    while i < v.len()
        invariant
            ids == transcripts_view(v@).map_values(|t: TranscriptV| t.id),
            i <= v@.len(),
            forall|k: int| 0 <= k < i ==> ids[k] != id@,
        decreases v@.len() - i,
    {
        if str_eq(v[i].id.as_str(), id) {
            proof {
                assert(ids[i as int] == id@);
            }
            return true;
        }
        i += 1;
    }
    false
}

/// `k` is the top-level session started last (the last of equals).
pub open spec fn is_newest(all: Seq<TranscriptV>, k: int) -> bool {
    &&& 0 <= k < all.len()
    &&& is_top(all[k])
    &&& forall|j: int| 0 <= j < all.len() && is_top(#[trigger] all[j]) ==> all[j].started <= all[k].started
    &&& forall|j: int| k < j < all.len() && is_top(#[trigger] all[j]) ==> all[j].started < all[k].started
}

/// The top-level session started last.
pub fn newest(all: &[Transcript]) -> (r: Option<Transcript>)
    ensures
        match r {
            Some(t) => exists|k: int| is_newest(transcripts_view(all@), k) && t.view() == transcripts_view(all@)[k],
            None => forall|j: int| 0 <= j < all@.len() ==> !is_top(#[trigger] transcripts_view(all@)[j]),
        },
{
    let ghost av = transcripts_view(all@);
    let mut best: Option<usize> = None;
    let mut i: usize = 0;
    while i < all.len()
        invariant
            av == transcripts_view(all@),
            i <= all@.len(),
            match best {
                Some(k) => k < i && is_newest(av.take(i as int), k as int),
                None => forall|j: int| 0 <= j < i ==> !is_top(#[trigger] av[j]),
            },
        decreases all@.len() - i,
    {
        proof {
            assert(av.take(i + 1)[i as int] == av[i as int]);
        }
        if all[i].parent.is_none() {
            match best {
                Some(k) => {
                    if all[i].started >= all[k].started {
                        best = Some(i);
                    }
                },
                None => {
                    best = Some(i);
                },
            }
        }
        proof {
            match best {
                Some(k) => {
                    assert forall|j: int| 0 <= j < i + 1 && is_top(#[trigger] av.take(i + 1)[j]) implies av.take(i + 1)[j].started <= av.take(i + 1)[k as int].started by {
                        if j < i {
                            assert(av.take(i as int)[j] == av.take(i + 1)[j]);
                        }
                    }
                    assert forall|j: int| k < j < i + 1 && is_top(#[trigger] av.take(i + 1)[j]) implies av.take(i + 1)[j].started < av.take(i + 1)[k as int].started by {
                        if j < i {
                            assert(av.take(i as int)[j] == av.take(i + 1)[j]);
                        }
                    }
                    assert(is_newest(av.take(i + 1), k as int));
                },
                None => {},
            }
        }
        i += 1;
    }
    match best {
        Some(k) => {
            proof {
                assert(av.take(all@.len() as int) =~= av);
            }
            Some(all[k].copy())
        },
        None => None,
    }
}


// ---------------------------------------------------------------------------
// The report
// ---------------------------------------------------------------------------

/// Work sources count occurrences, which add up; listings count entries,
/// the same ones in every session.
pub open spec fn is_work(source: Seq<char>) -> bool {
    has_prefix(source, "Tool results"@) || has_prefix(source, "Conversation"@)
}

/// One session's cost added to the costs by source.
pub open spec fn merge_cost(by: Seq<CostV>, c: CostV) -> Seq<CostV> {
    let k = cost_at(by, c.source);
    if k >= 0 {
        let e = by[k];
        by.update(
            k,
            CostV {
                items: if is_work(c.source) {
                    e.items + c.items
                } else if e.items >= c.items {
                    e.items
                } else {
                    c.items
                },
                tokens: e.tokens + c.tokens,
                resent: e.resent + c.resent,
                ..e
            },
        )
    } else {
        by.push(CostV { source: c.source, origin: c.origin, items: c.items, tokens: c.tokens, resent: c.resent })
    }
}

pub open spec fn merge_costs(by: Seq<CostV>, cs: Seq<CostV>) -> Seq<CostV>
    decreases cs.len(),
{
    if cs.len() == 0 {
        by
    } else {
        merge_cost(merge_costs(by, cs.drop_last()), cs.last())
    }
}

/// Index of the first entry for `key`, or -1.
pub open spec fn seen_index(seen: Seq<(Seq<char>, u64)>, key: Seq<char>) -> int {
    if exists|k: int| 0 <= k < seen.len() && seen[k].0 == key {
        choose|k: int| 0 <= k < seen.len() && seen[k].0 == key && forall|j: int| 0 <= j < k ==> seen[j].0 != key
    } else {
        -1
    }
}

/// The newest session each source appeared in.
pub open spec fn merge_seen(seen: Seq<(Seq<char>, u64)>, key: Seq<char>, t: Option<u64>) -> Seq<(Seq<char>, u64)> {
    match t {
        None => seen,
        Some(t) => {
            let k = seen_index(seen, key);
            if k >= 0 {
                seen.update(k, (key, if seen[k].1 >= t { seen[k].1 } else { t }))
            } else {
                seen.push((key, t))
            }
        },
    }
}

pub open spec fn merge_seens(seen: Seq<(Seq<char>, u64)>, cs: Seq<CostV>, t: Option<u64>) -> Seq<(Seq<char>, u64)>
    decreases cs.len(),
{
    if cs.len() == 0 {
        seen
    } else {
        merge_seen(merge_seens(seen, cs.drop_last(), t), cs.last().source, t)
    }
}

/// One session's hook error added to the errors by command, marked with
/// when the session was seen.
pub open spec fn merge_hook(hs: Seq<HookErrorV>, h: HookErrorV, t: Option<u64>) -> Seq<HookErrorV> {
    let k = hook_at(hs, h.command);
    if k >= 0 {
        hs.update(
            k,
            HookErrorV {
                count: hs[k].count + h.count,
                last_seen: findings::opt_max(hs[k].last_seen, t),
                ..hs[k]
            },
        )
    } else {
        hs.push(HookErrorV { last_seen: t, ..h })
    }
}

pub open spec fn merge_hooks(hs: Seq<HookErrorV>, new: Seq<HookErrorV>, t: Option<u64>) -> Seq<HookErrorV>
    decreases new.len(),
{
    if new.len() == 0 {
        hs
    } else {
        merge_hook(merge_hooks(hs, new.drop_last(), t), new.last(), t)
    }
}

pub open spec fn strs_set(v: Vec<String>) -> Set<Seq<char>> {
    v.deep_view().to_set()
}

/// Sessions added up so far.
#[verifier::ext_equal]
pub struct MergeV {
    pub sessions: nat,
    pub subagents: nat,
    pub calls: nat,
    pub context_sent: nat,
    pub cached: nat,
    pub subagent_context_sent: nat,
    pub recorded: bool,
    pub seen: Seq<(Seq<char>, u64)>,
    pub by: Seq<CostV>,
    pub hooks: Seq<HookErrorV>,
    pub listed: Set<Seq<char>>,
    pub used: Set<Seq<char>>,
    pub mcp: Set<Seq<char>>,
}

pub open spec fn merge_step(m: MergeV, s: SessionAudit) -> MergeV {
    MergeV {
        sessions: m.sessions + if s.subagent {
            0nat
        } else {
            1nat
        },
        subagents: m.subagents + if s.subagent {
            1nat
        } else {
            0nat
        },
        subagent_context_sent: m.subagent_context_sent + if s.subagent {
            s.usage.context_sent as nat
        } else {
            0nat
        },
        calls: m.calls + s.usage.calls as nat,
        context_sent: m.context_sent + s.usage.context_sent as nat,
        cached: m.cached + s.usage.cached as nat,
        recorded: m.recorded || s.skills_tracked,
        seen: merge_seens(m.seen, costs_view(s.costs@), s.seen),
        by: merge_costs(m.by, costs_view(s.costs@)),
        hooks: merge_hooks(m.hooks, hooks_view(s.hook_errors@), s.seen),
        listed: m.listed + strs_set(s.skills_listed),
        used: m.used + strs_set(s.skills_invoked),
        mcp: m.mcp + strs_set(s.mcp_servers),
    }
}

pub open spec fn merge_all(ss: Seq<SessionAudit>) -> MergeV
    decreases ss.len(),
{
    if ss.len() == 0 {
        MergeV {
            sessions: 0,
            subagents: 0,
            calls: 0,
            context_sent: 0,
            cached: 0,
            subagent_context_sent: 0,
            recorded: false,
            seen: seq![],
            by: seq![],
            hooks: seq![],
            listed: Set::empty(),
            used: Set::empty(),
            mcp: Set::empty(),
        }
    } else {
        merge_step(merge_all(ss.drop_last()), ss.last())
    }
}

pub open spec fn all_costs(ss: Seq<SessionAudit>) -> Seq<CostV>
    decreases ss.len(),
{
    if ss.len() == 0 {
        seq![]
    } else {
        all_costs(ss.drop_last()) + costs_view(ss.last().costs@)
    }
}

pub open spec fn all_hooks(ss: Seq<SessionAudit>) -> Seq<HookErrorV>
    decreases ss.len(),
{
    if ss.len() == 0 {
        seq![]
    } else {
        all_hooks(ss.drop_last()) + hooks_view(ss.last().hook_errors@)
    }
}

pub open spec fn calls_f() -> spec_fn(SessionAudit) -> nat {
    |s: SessionAudit| s.usage.calls as nat
}

pub open spec fn context_f() -> spec_fn(SessionAudit) -> nat {
    |s: SessionAudit| s.usage.context_sent as nat
}

pub open spec fn cached_f() -> spec_fn(SessionAudit) -> nat {
    |s: SessionAudit| s.usage.cached as nat
}

/// Every sum the report makes fits in a `usize`.
pub open spec fn report_fits(ss: Seq<SessionAudit>) -> bool {
    &&& total(ss, calls_f()) <= usize::MAX
    &&& total(ss, context_f()) <= usize::MAX
    &&& total(ss, cached_f()) <= usize::MAX
    &&& total(all_costs(ss), tokens_f()) <= usize::MAX
    &&& total(all_costs(ss), resent_f()) <= usize::MAX
    &&& total(all_costs(ss), items_f()) <= usize::MAX
    &&& total(all_hooks(ss), findings::count_f()) <= usize::MAX
}

/// What the newest session says about skills and servers, when there is
/// one: it shows what today's config loads.
pub open spec fn used_now(m: MergeV, now: &Now) -> Set<Seq<char>> {
    match now.newest {
        Some(n) => m.used + strs_set(n.skills_invoked),
        None => m.used,
    }
}

pub open spec fn listed_now(m: MergeV, now: &Now) -> Set<Seq<char>> {
    match now.newest {
        Some(n) => strs_set(n.skills_listed),
        None => m.listed,
    }
}

pub open spec fn mcp_now(m: MergeV, now: &Now) -> Set<Seq<char>> {
    match now.newest {
        Some(n) => strs_set(n.mcp_servers),
        None => m.mcp,
    }
}

/// `out` is `by` ordered stably by what each resent, biggest first.
pub open spec fn by_resent(by: Seq<CostV>, out: Seq<CostV>) -> bool {
    exists|ord: Seq<usize>|
        #[trigger] crate::order::num_order(ord, resent_keys(by), true) && out == ord.map_values(
            |i: usize| by[i as int],
        )
}

pub open spec fn resent_keys(by: Seq<CostV>) -> Seq<u128> {
    by.map_values(|c: CostV| c.resent as u128)
}

proof fn lemma_all_prefix(ss: Seq<SessionAudit>, i: int)
    requires
        0 <= i < ss.len(),
    ensures
        all_costs(ss.take(i + 1)) == all_costs(ss.take(i)) + costs_view(ss[i].costs@),
        all_hooks(ss.take(i + 1)) == all_hooks(ss.take(i)) + hooks_view(ss[i].hook_errors@),
{
    assert(ss.take(i + 1).drop_last() =~= ss.take(i));
    assert(ss.take(i + 1).last() == ss[i]);
}

proof fn lemma_all_le(ss: Seq<SessionAudit>, i: int)
    requires
        0 <= i <= ss.len(),
    ensures
        total(all_costs(ss.take(i)), tokens_f()) <= total(all_costs(ss), tokens_f()),
        total(all_costs(ss.take(i)), resent_f()) <= total(all_costs(ss), resent_f()),
        total(all_costs(ss.take(i)), items_f()) <= total(all_costs(ss), items_f()),
        total(all_hooks(ss.take(i)), findings::count_f()) <= total(all_hooks(ss), findings::count_f()),
        total(ss.take(i), calls_f()) <= total(ss, calls_f()),
        total(ss.take(i), context_f()) <= total(ss, context_f()),
        total(ss.take(i), cached_f()) <= total(ss, cached_f()),
    decreases ss.len() - i,
{
    if i < ss.len() {
        lemma_all_le(ss, i + 1);
        lemma_all_prefix(ss, i);
        lemma_total_concat(all_costs(ss.take(i)), costs_view(ss[i].costs@), tokens_f());
        lemma_total_concat(all_costs(ss.take(i)), costs_view(ss[i].costs@), resent_f());
        lemma_total_concat(all_costs(ss.take(i)), costs_view(ss[i].costs@), items_f());
        lemma_total_concat(all_hooks(ss.take(i)), hooks_view(ss[i].hook_errors@), findings::count_f());
        lemma_total_prefix(ss, calls_f(), i);
        lemma_total_prefix(ss, context_f(), i);
        lemma_total_prefix(ss, cached_f(), i);
    } else {
        assert(ss.take(i) =~= ss);
    }
}

fn merge_cost_exec(by: &mut Vec<Cost>, c: &Cost)
    requires
        total(costs_view(old(by)@), tokens_f()) + c.tokens <= usize::MAX,
        total(costs_view(old(by)@), resent_f()) + c.resent <= usize::MAX,
        total(costs_view(old(by)@), items_f()) + c.items <= usize::MAX,
    ensures
        costs_view(final(by)@) == merge_cost(costs_view(old(by)@), c.view()),
        total(costs_view(final(by)@), tokens_f()) == total(costs_view(old(by)@), tokens_f()) + c.tokens,
        total(costs_view(final(by)@), resent_f()) == total(costs_view(old(by)@), resent_f()) + c.resent,
        total(costs_view(final(by)@), items_f()) <= total(costs_view(old(by)@), items_f()) + c.items,
{
    let ghost acc = costs_view(by@);
    let work = str_starts_with(c.source.as_str(), "Tool results") || str_starts_with(
        c.source.as_str(),
        "Conversation",
    );
    match find_cost(by, c.source.as_str()) {
        Some(k) => {
            proof {
                lemma_total_bound(acc, tokens_f(), k as int);
                lemma_total_bound(acc, resent_f(), k as int);
                lemma_total_bound(acc, items_f(), k as int);
            }
            let e_items = by[k].items;
            let items = if work {
                e_items + c.items
            } else if e_items >= c.items {
                e_items
            } else {
                c.items
            };
            let tokens = by[k].tokens + c.tokens;
            let resent = by[k].resent + c.resent;
            by[k].items = items;
            by[k].tokens = tokens;
            by[k].resent = resent;
            proof {
                let nc = CostV {
                    items: items as nat,
                    tokens: acc[k as int].tokens + c.tokens as nat,
                    resent: acc[k as int].resent + c.resent as nat,
                    ..acc[k as int]
                };
                assert(costs_view(by@) =~= acc.update(k as int, nc));
                lemma_total_update(acc, tokens_f(), k as int, nc);
                lemma_total_update(acc, resent_f(), k as int, nc);
                lemma_total_update(acc, items_f(), k as int, nc);
            }
        },
        None => {
            let n = c.copy();
            by.push(n);
            proof {
                assert(costs_view(by@) =~= acc.push(c.view()));
                lemma_total_push(acc, tokens_f(), c.view());
                lemma_total_push(acc, resent_f(), c.view());
                lemma_total_push(acc, items_f(), c.view());
            }
        },
    }
}

fn merge_seen_exec(seen: &mut Vec<(String, u64)>, key: &str, t: Option<u64>)
    ensures
        findings::seen_view(final(seen)@) == merge_seen(findings::seen_view(old(seen)@), key@, t),
{
    let ghost sv = findings::seen_view(seen@);
    if let Some(t) = t {
        let mut i: usize = 0;
        let mut found = false;
        while i < seen.len() && !found
            invariant
                sv == findings::seen_view(seen@),
                i <= seen@.len(),
                found ==> i < seen@.len() && sv[i as int].0 == key@,
                forall|j: int| 0 <= j < i ==> sv[j].0 != key@,
            decreases seen@.len() - i, if found { 0int } else { 1int },
        {
            if str_eq(seen[i].0.as_str(), key) {
                found = true;
            } else {
                i += 1;
            }
        }
        if found {
            proof {
                let k = seen_index(sv, key@);
                if k != i {
                    if k < i {
                        assert(sv[k].0 != key@);
                    } else {
                        assert(sv[i as int].0 != key@);
                    }
                }
            }
            let v = if seen[i].1 >= t {
                seen[i].1
            } else {
                t
            };
            seen[i].1 = v;
            proof {
                assert(findings::seen_view(seen@) =~= merge_seen(sv, key@, Some(t)));
            }
        } else {
            seen.push((key.to_string(), t));
            proof {
                assert(findings::seen_view(seen@) =~= merge_seen(sv, key@, Some(t)));
            }
        }
    }
}

fn merge_hook_exec(hs: &mut Vec<HookError>, h: &HookError, t: Option<u64>)
    requires
        total(hooks_view(old(hs)@), findings::count_f()) + h.count <= usize::MAX,
    ensures
        hooks_view(final(hs)@) == merge_hook(hooks_view(old(hs)@), h.view(), t),
        total(hooks_view(final(hs)@), findings::count_f()) == total(hooks_view(old(hs)@), findings::count_f())
            + h.count,
{
    let ghost v = hooks_view(hs@);
    let mut i: usize = 0;
    while i < hs.len()
        invariant
            v == hooks_view(hs@),
            hs@ == old(hs)@,
            total(v, findings::count_f()) + h.count <= usize::MAX,
            i <= hs@.len(),
            forall|j: int| 0 <= j < i ==> v[j].command != h.command@,
        decreases hs@.len() - i,
    {
        if str_eq(hs[i].command.as_str(), h.command.as_str()) {
            proof {
                let k = hook_at(v, h.command@);
                assert(v[i as int].command == h.command@);
                if k != i {
                    if k < i {
                        assert(v[k].command != h.command@);
                    } else {
                        assert(v[i as int].command != h.command@);
                    }
                }
                lemma_total_bound(v, findings::count_f(), i as int);
            }
            let n = hs[i].count + h.count;
            let last = match (hs[i].last_seen, t) {
                (Some(x), Some(y)) => Some(if x >= y { x } else { y }),
                (Some(x), None) => Some(x),
                (None, y) => y,
            };
            hs[i].count = n;
            hs[i].last_seen = last;
            proof {
                let nh = HookErrorV { count: v[i as int].count + h.count as nat, last_seen: last, ..v[i as int] };
                assert(hooks_view(hs@) =~= v.update(i as int, nh));
                lemma_total_update(v, findings::count_f(), i as int, nh);
            }
            return;
        }
        i += 1;
    }
    let mut n = h.copy();
    n.last_seen = t;
    hs.push(n);
    proof {
        assert(hooks_view(hs@) =~= v.push(HookErrorV { last_seen: t, ..h.view() }));
        lemma_total_push(v, findings::count_f(), HookErrorV { last_seen: t, ..h.view() });
    }
}

/// What `report` returns for `ss` and `now`.
pub open spec fn report_spec(r: Report, ss: Seq<SessionAudit>, now: &Now) -> bool {
    let m = merge_all(ss);
    &&& r.sessions == m.sessions
    &&& r.subagents == m.subagents
    &&& r.calls == m.calls
    &&& r.context_sent == m.context_sent
    &&& r.cached == m.cached
    &&& r.subagent_context_sent == m.subagent_context_sent
    &&& r.skills_tracked == m.recorded
    &&& hooks_view(r.hook_errors@) == m.hooks
    &&& by_resent(m.by, costs_view(r.costs@))
    &&& r.skills_listed == m.listed.len()
    &&& sorted_strs(r.skills_used.deep_view())
    &&& strs_set(r.skills_used) == used_now(m, now)
    &&& sorted_strs(r.skills_unused.deep_view())
    &&& strs_set(r.skills_unused) == listed_now(m, now).difference(used_now(m, now))
    &&& sorted_strs(r.mcp_servers.deep_view())
    &&& strs_set(r.mcp_servers) == mcp_now(m, now)
    &&& exists|present: Seq<bool>|
        present.len() == r.costs@.len() && #[trigger] findings::ranked(
            findings::unranked(&r, m.seen, findings::now_view(now), present),
            findings::findings_view(r.findings@),
        )
}

/// Sessions added up into one report: totals, costs by source (largest
/// first), hook errors by command, skills and MCP servers as the newest
/// session shows them when there is one, and the findings.
#[verifier::rlimit(60)]
pub fn report(sessions: Vec<SessionAudit>, now: &Now) -> (r: Report)
    requires
        report_fits(sessions@),
    ensures
        report_spec(r, sessions@, now),
{
    let ghost ss = sessions@;
    let mut n_sessions: usize = 0;
    let mut n_subagents: usize = 0;
    let mut calls: usize = 0;
    let mut context_sent: usize = 0;
    let mut cached: usize = 0;
    let mut sub_ctx: usize = 0;
    let mut recorded = false;
    let mut seen: Vec<(String, u64)> = Vec::new();
    let mut by: Vec<Cost> = Vec::new();
    let mut hooks: Vec<HookError> = Vec::new();
    let mut listed: Vec<String> = Vec::new();
    let mut used: Vec<String> = Vec::new();
    let mut mcp: Vec<String> = Vec::new();
    let mut i: usize = 0;
    proof {
        assert(ss.take(0) =~= Seq::<SessionAudit>::empty());
        assert(strs_set(listed) =~= Set::<Seq<char>>::empty());
        assert(strs_set(used) =~= Set::<Seq<char>>::empty());
        assert(strs_set(mcp) =~= Set::<Seq<char>>::empty());
        assert(findings::seen_view(seen@) =~= Seq::<(Seq<char>, u64)>::empty());
        assert(costs_view(by@) =~= Seq::<CostV>::empty());
        assert(hooks_view(hooks@) =~= Seq::<HookErrorV>::empty());
    }
    while i < sessions.len()
        invariant
            ss == sessions@,
            report_fits(ss),
            i <= ss.len(),
            n_sessions + n_subagents == i,
            n_sessions == merge_all(ss.take(i as int)).sessions,
            n_subagents == merge_all(ss.take(i as int)).subagents,
            calls == merge_all(ss.take(i as int)).calls,
            context_sent == merge_all(ss.take(i as int)).context_sent,
            cached == merge_all(ss.take(i as int)).cached,
            sub_ctx == merge_all(ss.take(i as int)).subagent_context_sent,
            sub_ctx <= context_sent,
            recorded == merge_all(ss.take(i as int)).recorded,
            findings::seen_view(seen@) == merge_all(ss.take(i as int)).seen,
            costs_view(by@) == merge_all(ss.take(i as int)).by,
            hooks_view(hooks@) == merge_all(ss.take(i as int)).hooks,
            sorted_strs(listed.deep_view()),
            sorted_strs(used.deep_view()),
            sorted_strs(mcp.deep_view()),
            strs_set(listed) == merge_all(ss.take(i as int)).listed,
            strs_set(used) == merge_all(ss.take(i as int)).used,
            strs_set(mcp) == merge_all(ss.take(i as int)).mcp,
            calls == total(ss.take(i as int), calls_f()),
            context_sent == total(ss.take(i as int), context_f()),
            cached == total(ss.take(i as int), cached_f()),
            total(costs_view(by@), tokens_f()) == total(all_costs(ss.take(i as int)), tokens_f()),
            total(costs_view(by@), resent_f()) == total(all_costs(ss.take(i as int)), resent_f()),
            total(costs_view(by@), items_f()) <= total(all_costs(ss.take(i as int)), items_f()),
            total(hooks_view(hooks@), findings::count_f()) == total(
                all_hooks(ss.take(i as int)),
                findings::count_f(),
            ),
        decreases ss.len() - i,
    {
        let s = &sessions[i];
        let ghost m = merge_all(ss.take(i as int));
        proof {
            assert(ss.take(i + 1).drop_last() =~= ss.take(i as int));
            assert(ss.take(i + 1).last() == ss[i as int]);
            lemma_all_le(ss, i + 1);
            lemma_all_prefix(ss, i as int);
            lemma_total_prefix(ss, calls_f(), i as int);
            lemma_total_prefix(ss, context_f(), i as int);
            lemma_total_prefix(ss, cached_f(), i as int);
            lemma_total_concat(all_costs(ss.take(i as int)), costs_view(s.costs@), tokens_f());
            lemma_total_concat(all_costs(ss.take(i as int)), costs_view(s.costs@), resent_f());
            lemma_total_concat(all_costs(ss.take(i as int)), costs_view(s.costs@), items_f());
            lemma_total_concat(all_hooks(ss.take(i as int)), hooks_view(s.hook_errors@), findings::count_f());
        }
        if s.subagent {
            n_subagents += 1;
            sub_ctx = sub_ctx + s.usage.context_sent;
        } else {
            n_sessions += 1;
        }
        calls = calls + s.usage.calls;
        context_sent = context_sent + s.usage.context_sent;
        cached = cached + s.usage.cached;
        recorded = recorded || s.skills_tracked;
        let ghost cs = costs_view(s.costs@);
        let mut j: usize = 0;
        proof {
            assert(cs.take(0) =~= Seq::<CostV>::empty());
        }
        while j < s.costs.len()
            invariant
                cs == costs_view(s.costs@),
                j <= cs.len(),
                findings::seen_view(seen@) == merge_seens(m.seen, cs.take(j as int), s.seen),
                costs_view(by@) == merge_costs(m.by, cs.take(j as int)),
                total(costs_view(by@), tokens_f()) == total(m.by, tokens_f()) + total(cs.take(j as int), tokens_f()),
                total(costs_view(by@), resent_f()) == total(m.by, resent_f()) + total(cs.take(j as int), resent_f()),
                total(costs_view(by@), items_f()) <= total(m.by, items_f()) + total(cs.take(j as int), items_f()),
                total(m.by, tokens_f()) + total(cs, tokens_f()) <= usize::MAX,
                total(m.by, resent_f()) + total(cs, resent_f()) <= usize::MAX,
                total(m.by, items_f()) + total(cs, items_f()) <= usize::MAX,
            decreases cs.len() - j,
        {
            let c = &s.costs[j];
            proof {
                assert(cs.take(j + 1).drop_last() =~= cs.take(j as int));
                assert(cs.take(j + 1).last() == c.view());
                lemma_total_prefix(cs, tokens_f(), j as int);
                lemma_total_prefix(cs, resent_f(), j as int);
                lemma_total_prefix(cs, items_f(), j as int);
                crate::seqs::lemma_total_prefix_le(cs, tokens_f(), j + 1);
                crate::seqs::lemma_total_prefix_le(cs, resent_f(), j + 1);
                crate::seqs::lemma_total_prefix_le(cs, items_f(), j + 1);
            }
            merge_seen_exec(&mut seen, c.source.as_str(), s.seen);
            merge_cost_exec(&mut by, c);
            j += 1;
        }
        proof {
            assert(cs.take(cs.len() as int) =~= cs);
        }
        let ghost hv = hooks_view(s.hook_errors@);
        let mut k: usize = 0;
        proof {
            assert(hv.take(0) =~= Seq::<HookErrorV>::empty());
        }
        while k < s.hook_errors.len()
            invariant
                hv == hooks_view(s.hook_errors@),
                k <= hv.len(),
                hooks_view(hooks@) == merge_hooks(m.hooks, hv.take(k as int), s.seen),
                total(hooks_view(hooks@), findings::count_f()) == total(m.hooks, findings::count_f()) + total(
                    hv.take(k as int),
                    findings::count_f(),
                ),
                total(m.hooks, findings::count_f()) + total(hv, findings::count_f()) <= usize::MAX,
            decreases hv.len() - k,
        {
            let h = &s.hook_errors[k];
            proof {
                assert(hv.take(k + 1).drop_last() =~= hv.take(k as int));
                assert(hv.take(k + 1).last() == h.view());
                lemma_total_prefix(hv, findings::count_f(), k as int);
                crate::seqs::lemma_total_prefix_le(hv, findings::count_f(), k + 1);
            }
            merge_hook_exec(&mut hooks, h, s.seen);
            k += 1;
        }
        proof {
            assert(hv.take(hv.len() as int) =~= hv);
        }
        insert_all(&mut listed, &s.skills_listed);
        insert_all(&mut used, &s.skills_invoked);
        insert_all(&mut mcp, &s.mcp_servers);
        i += 1;
    }
    proof {
        assert(ss.take(ss.len() as int) =~= ss);
    }
    let ghost m = merge_all(ss);
    // Costs, largest resent first.
    let ghost bv = costs_view(by@);
    let mut keys: Vec<u128> = Vec::new();
    let mut a: usize = 0;
    while a < by.len()
        invariant
            bv == costs_view(by@),
            a <= by@.len(),
            keys@ =~= resent_keys(bv).take(a as int),
        decreases by@.len() - a,
    {
        keys.push(by[a].resent as u128);
        proof {
            assert(resent_keys(bv).take(a + 1) =~= resent_keys(bv).take(a as int).push(bv[a as int].resent as u128));
        }
        a += 1;
    }
    proof {
        assert(resent_keys(bv).take(by@.len() as int) =~= resent_keys(bv));
    }
    let ord = crate::order::order_by_num(&keys, true);
    let mut costs: Vec<Cost> = Vec::new();
    let mut b: usize = 0;
    while b < ord.len()
        invariant
            bv == costs_view(by@),
            crate::order::is_order(ord@, by@.len()),
            b <= ord@.len(),
            costs_view(costs@) =~= ord@.take(b as int).map_values(|x: usize| bv[x as int]),
        decreases ord@.len() - b,
    {
        let c = by[ord[b]].copy();
        let ghost before = costs@;
        costs.push(c);
        proof {
            assert(costs_view(costs@) =~= costs_view(before).push(c.view()));
            assert(ord@.take(b + 1) =~= ord@.take(b as int).push(ord@[b as int]));
        }
        b += 1;
    }
    proof {
        assert(ord@.take(ord@.len() as int) =~= ord@);
        assert(crate::order::num_order(ord@, resent_keys(bv), true));
        assert(by_resent(m.by, costs_view(costs@)));
    }
    let n_listed = listed.len();
    proof {
        crate::strset::lemma_sorted_count(listed.deep_view());
    }
    let (listed_final, used_final, mcp_final) = match &now.newest {
        Some(n) => {
            let mut u = used;
            insert_all(&mut u, &n.skills_invoked);
            (sorted_set(&n.skills_listed), u, sorted_set(&n.mcp_servers))
        },
        None => (listed, used, mcp),
    };
    let unused = minus(&listed_final, &used_final);
    let mut r = Report {
        sessions: n_sessions,
        calls,
        context_sent,
        cached,
        subagents: n_subagents,
        subagent_context_sent: sub_ctx,
        costs,
        hook_errors: hooks,
        skills_listed: n_listed,
        skills_used: used_final,
        skills_tracked: recorded,
        skills_unused: unused,
        mcp_servers: mcp_final,
        findings: Vec::new(),
    };
    proof {
        assert(total(all_hooks(ss), findings::count_f()) <= usize::MAX);
    }
    let f = findings::findings(&r, &seen, now);
    let ghost r0 = r;
    r.findings = f;
    proof {
        assert(findings::unranked(&r, m.seen, findings::now_view(now), seq![]) == findings::unranked(
            &r0,
            m.seen,
            findings::now_view(now),
            seq![],
        ));
        assert forall|p: Seq<bool>| #[trigger] findings::unranked(&r, m.seen, findings::now_view(now), p) == findings::unranked(
            &r0,
            m.seen,
            findings::now_view(now),
            p,
        ) by {}
        let nv = findings::now_view(now);
        let p = choose|p: Seq<bool>|
            p.len() == r0.costs@.len() && #[trigger] findings::ranked(
                findings::unranked(&r0, findings::seen_view(seen@), nv, p),
                findings::findings_view(f@),
            );
        assert(findings::seen_view(seen@) == m.seen);
        assert(findings::unranked(&r, m.seen, nv, p) == findings::unranked(&r0, m.seen, nv, p));
        assert(findings::findings_view(r.findings@) == findings::findings_view(f@));
        assert(findings::ranked(findings::unranked(&r, m.seen, nv, p), findings::findings_view(r.findings@)));
        assert(r.sessions == m.sessions);
        assert(r.skills_tracked == m.recorded);
        assert(hooks_view(r.hook_errors@) == m.hooks);
        assert(by_resent(m.by, costs_view(r.costs@)));
        assert(r.skills_listed == m.listed.len());
        assert(sorted_strs(r.skills_used.deep_view()));
        assert(strs_set(r.skills_used) == used_now(m, now));
        assert(sorted_strs(r.skills_unused.deep_view()));
        assert(strs_set(r.skills_unused) == listed_now(m, now).difference(used_now(m, now)));
        assert(sorted_strs(r.mcp_servers.deep_view()));
        assert(strs_set(r.mcp_servers) == mcp_now(m, now));
    }
    r
}

} // verus!
