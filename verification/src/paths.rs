//! Where relay keeps things. Two tiers only:
//!  - `.relay/` at the repo root: committed, shared by choice.
//!  - `<gitdir>/relay/`: local, per worktree, never committed.
//!
//! Paths are held as text with `/` between components.

use vstd::prelude::*;

use crate::text::{
    ascii_alnum, chars_of, copy_chars, has_prefix, is_ascii_alnum, slice, starts_with, string_of,
};

verus! {

pub struct Paths {
    /// Repo root (or cwd when not inside a git repo).
    pub root: String,
    /// Committed tier: `<root>/.relay`.
    pub shared: String,
    /// Local tier: `<gitdir>/relay` (a per-project dir under the user's data
    /// dir when there is no git repo).
    pub local: String,
    pub in_git: bool,
}

/// `base` joined with `name` as `Path::join` joins them on Unix: an
/// absolute `name` replaces `base`; else one `/` between them, none after
/// an empty `base`.
pub open spec fn join_spec(base: Seq<char>, name: Seq<char>) -> Seq<char> {
    if name.len() > 0 && name[0] == '/' {
        name
    } else if base.len() == 0 || base.last() == '/' {
        base + name
    } else {
        base.push('/') + name
    }
}

pub fn join(base: &str, name: &str) -> (r: String)
    ensures
        r@ == join_spec(base@, name@),
{
    let n = chars_of(name);
    if n.len() > 0 && n[0] == '/' {
        return string_of(&n);
    }
    let mut v = chars_of(base);
    if v.len() > 0 && v[v.len() - 1] != '/' {
        v.push('/');
    }
    crate::fmt::push_all(&mut v, &n);
    string_of(&v)
}

/// `p` relative to `root` when it lies under it; else `p` as given.
pub open spec fn rel_spec(root: Seq<char>, p: Seq<char>) -> Seq<char> {
    let r = if root.len() > 0 && root.last() == '/' {
        root.drop_last()
    } else {
        root
    };
    if p == r {
        seq![]
    } else if has_prefix(p, r.push('/')) {
        p.skip(r.len() + 1int)
    } else {
        p
    }
}

pub fn rel_chars(root: &[char], p: &[char]) -> (out: Vec<char>)
    ensures
        out@ == rel_spec(root@, p@),
{
    let r = if root.len() > 0 && root[root.len() - 1] == '/' {
        slice(root, 0, root.len() - 1)
    } else {
        copy_chars(root)
    };
    proof {
        if root@.len() > 0 && root@.last() == '/' {
            assert(r@ =~= root@.drop_last());
        }
    }
    if crate::text::chars_eq(p, &r) {
        return Vec::new();
    }
    let mut pre = copy_chars(&r);
    pre.push('/');
    if starts_with(p, &pre) {
        slice(p, pre.len(), p.len())
    } else {
        copy_chars(p)
    }
}

/// `p` with every character but ASCII letters and digits turned to `-`.
pub open spec fn slugify_spec(p: Seq<char>) -> Seq<char> {
    p.map_values(|c: char| if is_ascii_alnum(c) { c } else { '-' })
}

pub fn slugify(p: &str) -> (r: String)
    ensures
        r@ == slugify_spec(p@),
{
    let v = chars_of(p);
    let mut out: Vec<char> = Vec::new();
    let mut i: usize = 0;
    while i < v.len()
        invariant
            i <= v.len(),
            out@ == slugify_spec(v@.take(i as int)),
        decreases v.len() - i,
    {
        let c = v[i];
        out.push(if ascii_alnum(c) { c } else { '-' });
        i += 1;
        assert(out@ =~= slugify_spec(v@.take(i as int)));
    }
    assert(v@.take(v.len() as int) =~= v@);
    string_of(&out)
}

impl Paths {
    pub fn spool(&self) -> (r: String)
        ensures
            r@ == join_spec(self.local@, "spool"@),
    {
        join(self.local.as_str(), "spool")
    }

    pub fn outputs(&self) -> (r: String)
        ensures
            r@ == join_spec(self.local@, "outputs"@),
    {
        join(self.local.as_str(), "outputs")
    }

    pub fn handoffs(&self) -> (r: String)
        ensures
            r@ == join_spec(self.local@, "handoffs"@),
    {
        join(self.local.as_str(), "handoffs")
    }

    pub fn claims(&self) -> (r: String)
        ensures
            r@ == join_spec(self.local@, "claims"@),
    {
        join(self.local.as_str(), "claims")
    }

    pub fn current_session_file(&self) -> (r: String)
        ensures
            r@ == join_spec(self.local@, "current_session"@),
    {
        join(self.local.as_str(), "current_session")
    }

    pub fn log_file(&self) -> (r: String)
        ensures
            r@ == join_spec(self.local@, "relay.log"@),
    {
        join(self.local.as_str(), "relay.log")
    }

    pub fn timings_file(&self) -> (r: String)
        ensures
            r@ == join_spec(self.local@, "timings.log"@),
    {
        join(self.local.as_str(), "timings.log")
    }

    pub fn fetches_file(&self) -> (r: String)
        ensures
            r@ == join_spec(self.local@, "fetches.jsonl"@),
    {
        join(self.local.as_str(), "fetches.jsonl")
    }

    pub fn project_file(&self) -> (r: String)
        ensures
            r@ == join_spec(self.shared@, "project.md"@),
    {
        join(self.shared.as_str(), "project.md")
    }

    /// `p` as the repo names it: relative to the root when under it.
    pub fn rel(&self, p: &str) -> (r: String)
        ensures
            r@ == rel_spec(self.root@, p@),
    {
        let root = chars_of(self.root.as_str());
        let pv = chars_of(p);
        let out = rel_chars(&root, &pv);
        string_of(&out)
    }

    /// A path a harness reported, relative to the root when under it.
    pub fn rel_file(&self, f: &str) -> (r: String)
        ensures
            r@ == rel_spec(self.root@, f@),
    {
        self.rel(f)
    }
}

} // verus!
