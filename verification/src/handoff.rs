//! Rule-based session handoff: what one session leaves for the next,
//! built from the spool, the output store, git and the harness's own
//! transcript tail. No LLM. One file per session in the local tier,
//! rebuilt in place while that session is still running.

pub mod render;
pub mod summary;

use vstd::prelude::*;

use crate::frontmatter::{get, get_spec};
use crate::paths::{join, join_spec, Paths};
use crate::text::{
    chars_eq, chars_of, first_at_or_after, has_prefix, lines, lines_of, occurs_at, slice, starts_with, str_eq,
    string_of, trim, trim_spec, trim_start, trim_start_spec,
};

verus! {

pub struct Handoff {
    pub path: String,
    pub body: String,
}

/// What only the harness transcript knows: how each turn ended, what the
/// user answered when the agent asked, the plan they approved.
pub struct Tail {
    /// The agent's closing message of each turn, oldest first.
    pub replies: Vec<String>,
    /// `topic: answer`, one per question the user answered.
    pub decisions: Vec<String>,
    pub plan: Option<String>,
    /// Run with no one at the keyboard (a print-mode run, an SDK app): a script
    /// or a test, not work the next session should pick up.
    pub headless: bool,
}

impl Default for Tail {
    fn default() -> (t: Tail)
        ensures
            t.replies@.len() == 0,
            t.decisions@.len() == 0,
            t.plan is None,
            !t.headless,
    {
        Tail { replies: Vec::new(), decisions: Vec::new(), plan: None, headless: false }
    }
}

/// `<handoffs>/<session>.md`.
pub fn path_for(paths: &Paths, session: &str) -> (p: String)
    ensures
        p@ == join_spec(join_spec(paths.local@, "handoffs"@), session@ + ".md"@),
{
    let dir = paths.handoffs();
    let mut name = chars_of(session);
    crate::fmt::push_text(&mut name, ".md");
    let n = crate::text::string_of(&name);
    join(dir.as_str(), n.as_str())
}

/// Not marked as a run with no one at the keyboard.
pub open spec fn interactive(b: Seq<char>) -> bool {
    get_spec(b, "headless"@) != Some("true"@)
}

pub open spec fn on_branch(b: Seq<char>, branch: Seq<char>) -> bool {
    get_spec(b, "branch"@) == Some(branch)
}

pub open spec fn wanted(need_interactive: bool, need_branch: bool, branch: Seq<char>) -> spec_fn(Seq<char>) -> bool {
    |b: Seq<char>| (!need_interactive || interactive(b)) && (!need_branch || on_branch(b, branch))
}

/// The first index whose body `p` holds of.
pub open spec fn first_where(bs: Seq<Seq<char>>, p: spec_fn(Seq<char>) -> bool) -> Option<int> {
    if exists|k: int| 0 <= k < bs.len() && p(bs[k]) {
        Some(choose|k: int| 0 <= k < bs.len() && p(bs[k]) && forall|j: int| 0 <= j < k ==> !p(bs[j]))
    } else {
        None
    }
}

pub open spec fn bodies_view(bodies: Seq<&str>) -> Seq<Seq<char>> {
    bodies.map_values(|b: &str| b@)
}

/// Which handoff to show among `bodies`, newest first: an interactive
/// session on the branch, else any interactive one, else one on the
/// branch, else the newest.
pub open spec fn pick_spec(bs: Seq<Seq<char>>, branch: Seq<char>) -> Option<int> {
    match first_where(bs, wanted(true, true, branch)) {
        Some(i) => Some(i),
        None => match first_where(bs, wanted(true, false, branch)) {
            Some(i) => Some(i),
            None => match first_where(bs, wanted(false, true, branch)) {
                Some(i) => Some(i),
                None => if bs.len() > 0 {
                    Some(0)
                } else {
                    None
                },
            },
        },
    }
}

fn is_interactive(b: &str) -> (r: bool)
    ensures
        r == interactive(b@),
{
    match get(b, "headless") {
        Some(v) => !str_eq(v.as_str(), "true"),
        None => true,
    }
}

fn is_on_branch(b: &str, branch: &str) -> (r: bool)
    ensures
        r == on_branch(b@, branch@),
{
    match get(b, "branch") {
        Some(v) => str_eq(v.as_str(), branch),
        None => false,
    }
}

fn find_body(bodies: &[&str], branch: &str, need_interactive: bool, need_branch: bool) -> (r: Option<usize>)
    ensures
        match r {
            Some(i) => first_where(bodies_view(bodies@), wanted(need_interactive, need_branch, branch@))
                == Some(i as int),
            None => first_where(bodies_view(bodies@), wanted(need_interactive, need_branch, branch@)) is None,
        },
{
    let ghost bs = bodies_view(bodies@);
    let ghost p = wanted(need_interactive, need_branch, branch@);
    let mut i: usize = 0;
    while i < bodies.len()
        invariant
            bs == bodies_view(bodies@),
            p == wanted(need_interactive, need_branch, branch@),
            i <= bodies@.len(),
            forall|j: int| 0 <= j < i ==> !p(#[trigger] bs[j]),
        decreases bodies@.len() - i,
    {
        let b = bodies[i];
        let ok = (!need_interactive || is_interactive(b)) && (!need_branch || is_on_branch(b, branch));
        proof {
            assert(bs[i as int] == b@);
        }
        if ok {
            proof {
                let k = choose|k: int| 0 <= k < bs.len() && p(bs[k]) && forall|j: int| 0 <= j < k ==> !p(bs[j]);
                assert(p(bs[i as int]));
                if k != i {
                    if k < i {
                        assert(!p(bs[k]));
                    } else {
                        assert(!p(bs[i as int]));
                    }
                }
            }
            return Some(i);
        }
        i += 1;
    }
    None
}

/// Index of the handoff to show among `bodies`, newest first.
pub fn pick(bodies: &[&str], branch: &str) -> (r: Option<usize>)
    ensures
        match r {
            Some(i) => pick_spec(bodies_view(bodies@), branch@) == Some(i as int),
            None => pick_spec(bodies_view(bodies@), branch@) is None,
        },
{
    match find_body(bodies, branch, true, true) {
        Some(i) => Some(i),
        None => match find_body(bodies, branch, true, false) {
            Some(i) => Some(i),
            None => match find_body(bodies, branch, false, true) {
                Some(i) => Some(i),
                None => if bodies.len() > 0 {
                    Some(0)
                } else {
                    None
                },
            },
        },
    }
}


/// The value of `key: ` in the frontmatter block opened by a `---` line,
/// trimmed; `None` past the closing `---` or without a block.
pub open spec fn fm_value(ls: Seq<Seq<char>>, key: Seq<char>, i: int) -> Option<Seq<char>>
    decreases ls.len() - i,
{
    if i < 0 || i >= ls.len() {
        None
    } else if ls[i] == "---"@ {
        None
    } else if has_prefix(ls[i], key + ": "@) {
        Some(trim_spec(ls[i].skip(key.len() + 2int)))
    } else {
        fm_value(ls, key, i + 1)
    }
}

pub open spec fn frontmatter_spec(body: Seq<char>, key: Seq<char>) -> Option<Seq<char>> {
    let ls = lines_of(body);
    if ls.len() == 0 || ls[0] != "---"@ {
        None
    } else {
        fm_value(ls, key, 1)
    }
}

/// A field of a handoff's frontmatter, as the brief reads it.
pub fn frontmatter(body: &str, key: &str) -> (r: Option<String>)
    ensures
        match r {
            Some(v) => frontmatter_spec(body@, key@) == Some(v@),
            None => frontmatter_spec(body@, key@) is None,
        },
{
    let ls = lines(&chars_of(body));
    let ghost lv = ls.deep_view();
    let dashes = chars_of("---");
    if ls.len() == 0 || !chars_eq(&ls[0], &dashes) {
        proof {
            if ls@.len() > 0 {
                assert(lv[0] == ls@[0]@);
            }
        }
        return None;
    }
    proof {
        assert(lv[0] == ls@[0]@);
    }
    let mut prefix = chars_of(key);
    crate::fmt::push_text(&mut prefix, ": ");
    let mut i: usize = 1;
    while i < ls.len()
        invariant
            lv == ls.deep_view(),
            lv == lines_of(body@),
            dashes@ == "---"@,
            prefix@ == key@ + ": "@,
            1 <= i <= ls@.len(),
            lv[0] == "---"@,
            fm_value(lv, key@, i as int) == fm_value(lv, key@, 1),
        decreases ls@.len() - i,
    {
        let l = &ls[i];
        proof {
            assert(lv[i as int] == l@);
            reveal_strlit(": ");
        }
        if chars_eq(l, &dashes) {
            return None;
        }
        if starts_with(l, &prefix) {
            let rest = slice(l, prefix.len(), l.len());
            let v = trim(&rest);
            proof {
                assert(rest@ =~= l@.skip(key@.len() + 2int));
            }
            return Some(string_of(&v));
        }
        i += 1;
    }
    None
}

/// The body after its frontmatter block, leading whitespace trimmed;
/// the whole body when it has no complete block.
pub open spec fn strip_frontmatter_spec(body: Seq<char>) -> Seq<char> {
    if !has_prefix(body, "---\n"@) {
        body
    } else {
        match crate::handoff::summary::find_at(body, "\n---\n"@, 4) {
            Some(j) => trim_start_spec(body.skip(j + 5)),
            None => body,
        }
    }
}

/// Body without the frontmatter block.
pub fn strip_frontmatter(body: &str) -> (r: String)
    ensures
        r@ == strip_frontmatter_spec(body@),
{
    let b = chars_of(body);
    if !starts_with(&b, &chars_of("---\n")) {
        return body.to_string();
    }
    proof {
        reveal_strlit("---\n");
    }
    match crate::handoff::summary::find_at_exec(&b, &chars_of("\n---\n"), 4) {
        Some(j) => {
            proof {
                reveal_strlit("\n---\n");
                let i = choose|i: int| first_at_or_after(b@, "\n---\n"@, 4, i);
                assert(first_at_or_after(b@, "\n---\n"@, 4, i));
                assert(i == j);
                assert(occurs_at(b@, "\n---\n"@, j as int));
                assert(b@.len() == b.len());
            }
            let rest = slice(&b, j + 5, b.len());
            let t = trim_start(&rest);
            proof {
                assert(rest@ =~= b@.skip(j + 5));
            }
            string_of(&t)
        },
        None => body.to_string(),
    }
}

} // verus!
