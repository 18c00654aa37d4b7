//! Durable project memory in the committed tier: one item per file
//! under `.relay/{rules,decisions,gotchas}/`. Written by `relay remember`
//! (the agent, mid-session). Review happens in `git diff`; there is no
//! pending queue.
//!
//! What needs the disk or git (reading the item files, asking git what
//! changed since a commit, finding a free file name) is done by the
//! caller; this module decides everything around it.

use vstd::prelude::*;

use crate::fmt::{push_all, push_dec, push_text, truncate_chars, truncate_spec};
use crate::frontmatter::{get, get_spec, strip, strip_spec};
use crate::handoff::render::GitState;
use crate::paths::{join, join_spec, rel_spec, Paths};
use crate::text::{
    ascii_alnum, chars_eq, chars_of, copy_chars, has_prefix, is_ascii_alnum, is_blank, join_spec as join_text,
    lines, lines_of, split_char, split_on, str_eq, string_of, strings_to_chars, strip_all, strip_all_exec, trim,
    trim_spec,
};

verus! {

/// What an item is. Declaration order is the order the brief shows
/// them: rules bind every session, gotchas save the most time,
/// decisions explain the code.
#[derive(Debug, Clone, Copy, PartialEq, Eq, PartialOrd, Ord, Structural)]
pub enum Kind {
    Rule,
    Gotcha,
    Decision,
}

pub open spec fn kind_name(k: Kind) -> Seq<char> {
    match k {
        Kind::Rule => "rule"@,
        Kind::Gotcha => "gotcha"@,
        Kind::Decision => "decision"@,
    }
}

/// The concept type an Open Knowledge Format reader knows the kind by.
pub open spec fn okf_type_spec(k: Kind) -> Seq<char> {
    match k {
        Kind::Rule => "Rule"@,
        Kind::Gotcha => "Gotcha"@,
        Kind::Decision => "Decision"@,
    }
}

impl Kind {
    /// Every kind, in the order the brief shows them.
    pub fn all() -> (r: Vec<Kind>)
        ensures
            r@ == seq![Kind::Rule, Kind::Gotcha, Kind::Decision],
    {
        vec![Kind::Rule, Kind::Gotcha, Kind::Decision]
    }

    pub fn as_str(self) -> (r: &'static str)
        ensures
            r@ == kind_name(self),
    {
        match self {
            Kind::Rule => "rule",
            Kind::Gotcha => "gotcha",
            Kind::Decision => "decision",
        }
    }

    /// The concept type an Open Knowledge Format reader knows it by.
    pub fn okf_type(self) -> (r: &'static str)
        ensures
            r@ == okf_type_spec(self),
    {
        match self {
            Kind::Rule => "Rule",
            Kind::Gotcha => "Gotcha",
            Kind::Decision => "Decision",
        }
    }

    /// The directory its items live in.
    pub fn dir_name(self) -> (r: String)
        ensures
            r@ == kind_name(self) + "s"@,
    {
        let mut v = chars_of(self.as_str());
        v.push('s');
        proof {
            reveal_strlit("s");
        }
        string_of(&v)
    }
}

#[derive(Debug, Clone)]
pub struct Item {
    pub kind: Kind,
    pub path: String,
    pub title: String,
    pub created: String,
    /// The commit the item was saved on.
    pub sha: Option<String>,
    /// Repo paths the item is about, as given to `--path`.
    pub about: Vec<String>,
}

pub open spec fn opt_view(o: Option<String>) -> Option<Seq<char>> {
    match o {
        Some(s) => Some(s@),
        None => None,
    }
}

#[verifier::ext_equal]
pub struct ItemV {
    pub kind: Kind,
    pub path: Seq<char>,
    pub title: Seq<char>,
    pub created: Seq<char>,
    pub sha: Option<Seq<char>>,
    pub about: Seq<Seq<char>>,
}

impl Item {
    pub open spec fn view(&self) -> ItemV {
        ItemV {
            kind: self.kind,
            path: self.path@,
            title: self.title@,
            created: self.created@,
            sha: opt_view(self.sha),
            about: self.about.deep_view(),
        }
    }

    pub fn copy(&self) -> (r: Item)
        ensures
            r.view() == self.view(),
    {
        let mut about: Vec<String> = Vec::new();
        let mut i: usize = 0;
        while i < self.about.len()
            invariant
                i <= self.about@.len(),
                about.deep_view() =~= self.about.deep_view().take(i as int),
            decreases self.about@.len() - i,
        {
            about.push(self.about[i].clone());
            proof {
                assert(self.about.deep_view().take(i + 1) =~= self.about.deep_view().take(i as int).push(
                    self.about@[i as int]@,
                ));
            }
            i += 1;
        }
        proof {
            assert(self.about.deep_view().take(self.about@.len() as int) =~= self.about.deep_view());
        }
        Item {
            kind: self.kind,
            path: self.path.clone(),
            title: self.title.clone(),
            created: self.created.clone(),
            sha: match &self.sha {
                Some(s) => Some(s.clone()),
                None => None,
            },
            about,
        }
    }
}

pub open spec fn items_view(v: Seq<Item>) -> Seq<ItemV> {
    v.map_values(|i: Item| i.view())
}

// ---------------------------------------------------------------------------
// Staleness
// ---------------------------------------------------------------------------

/// `s` without the `/`s it ends with.
pub open spec fn strip_trailing(s: Seq<char>, c: char) -> Seq<char>
    decreases s.len(),
{
    if s.len() > 0 && s.last() == c {
        strip_trailing(s.drop_last(), c)
    } else {
        s
    }
}

fn strip_trailing_exec(s: &[char], c: char) -> (r: Vec<char>)
    ensures
        r@ == strip_trailing(s@, c),
{
    let mut r = copy_chars(s);
    while r.len() > 0 && r[r.len() - 1] == c
        invariant
            strip_trailing(r@, c) == strip_trailing(s@, c),
        decreases r@.len(),
    {
        r.pop();
    }
    r
}

/// A path as an item names it: no leading `./`, no trailing `/`.
pub open spec fn bare_path(p: Seq<char>) -> Seq<char> {
    strip_trailing(strip_all(p, "./"@), '/')
}

/// `c` is `p` or lies under it.
pub open spec fn touches(c: Seq<char>, p: Seq<char>) -> bool {
    c == p || has_prefix(c, p.push('/'))
}

pub open spec fn touched(changed: Seq<Seq<char>>, p: Seq<char>) -> bool {
    exists|j: int| 0 <= j < changed.len() && touches(#[trigger] changed[j], p)
}

/// The paths of `about` (bare) that appear in `changed`, in order.
pub open spec fn changed_spec(about: Seq<Seq<char>>, changed: Seq<Seq<char>>) -> Seq<Seq<char>>
    decreases about.len(),
{
    if about.len() == 0 {
        seq![]
    } else {
        let rest = changed_spec(about.drop_last(), changed);
        let p = bare_path(about.last());
        if p.len() > 0 && touched(changed, p) {
            rest.push(p)
        } else {
            rest
        }
    }
}

fn touched_exec(changed: &[String], p: &Vec<char>) -> (r: bool)
    ensures
        r == touched(changed@.map_values(|s: String| s@), p@),
{
    let ghost cv = changed@.map_values(|s: String| s@);
    let mut under = copy_chars(p);
    under.push('/');
    let mut j: usize = 0;
    while j < changed.len()
        invariant
            cv == changed@.map_values(|s: String| s@),
            under@ == p@.push('/'),
            j <= changed@.len(),
            forall|k: int| 0 <= k < j ==> !touches(#[trigger] cv[k], p@),
        decreases changed@.len() - j,
    {
        let c = chars_of(changed[j].as_str());
        proof {
            assert(cv[j as int] == c@);
        }
        if chars_eq(&c, p) || crate::text::starts_with(&c, &under) {
            return true;
        }
        j += 1;
    }
    false
}

impl Item {
    /// The paths this item is about that appear in `changed`: files that
    /// moved on since the item was saved, so it may no longer hold. A
    /// directory counts when anything under it changed.
    pub fn changed(&self, changed: &[String]) -> (r: Vec<String>)
        ensures
            r.deep_view() == changed_spec(self.about.deep_view(), changed@.map_values(|s: String| s@)),
    {
        let ghost av = self.about.deep_view();
        let ghost cv = changed@.map_values(|s: String| s@);
        let dot = chars_of("./");
        let mut out: Vec<String> = Vec::new();
        let mut i: usize = 0;
        proof {
            assert(av.take(0) =~= Seq::<Seq<char>>::empty());
            assert(out.deep_view() =~= Seq::<Seq<char>>::empty());
        }
        while i < self.about.len()
            invariant
                av == self.about.deep_view(),
                cv == changed@.map_values(|s: String| s@),
                dot@ == "./"@,
                i <= av.len(),
                out.deep_view() == changed_spec(av.take(i as int), cv),
            decreases av.len() - i,
        {
            proof {
                assert(av.take(i + 1).drop_last() =~= av.take(i as int));
                assert(av.take(i + 1).last() == self.about@[i as int]@);
            }
            let a = chars_of(self.about[i].as_str());
            let s = strip_all_exec(&a, &dot);
            let p = strip_trailing_exec(&s, '/');
            if p.len() > 0 && touched_exec(changed, &p) {
                let ghost before = out.deep_view();
                out.push(string_of(&p));
                proof {
                    assert(out.deep_view() =~= before.push(p@));
                }
            }
            i += 1;
        }
        proof {
            assert(av.take(av.len() as int) =~= av);
        }
        out
    }
}

/// The item has a commit and paths, so git can tell whether it is stale.
pub open spec fn checkable(it: ItemV) -> bool {
    it.sha is Some && it.about.len() > 0
}

/// The commits asked about after the first `n` items: each checkable
/// item's commit, once, until `max` are asked.
pub open spec fn asked(items: Seq<ItemV>, n: int, max: nat) -> Seq<Seq<char>>
    decreases n,
{
    if n <= 0 {
        seq![]
    } else {
        let before = asked(items, n - 1, max);
        let it = items[n - 1];
        if checkable(it) && !before.contains(it.sha->0) && before.len() < max {
            before.push(it.sha->0)
        } else {
            before
        }
    }
}

/// What git answered for `sha`: the files changed since it, or `None`
/// when it could not tell.
pub open spec fn answer_for(answers: Seq<(Seq<char>, Option<Seq<Seq<char>>>)>, sha: Seq<char>) -> Option<
    Seq<Seq<char>>,
>
    decreases answers.len(),
{
    if answers.len() == 0 {
        None
    } else if answers[0].0 == sha {
        answers[0].1
    } else {
        answer_for(answers.drop_first(), sha)
    }
}

/// For each item, the paths it is about that changed since it was saved;
/// nothing for an item whose commit was not asked.
pub open spec fn stale_of(
    items: Seq<ItemV>,
    i: int,
    max: nat,
    answers: Seq<(Seq<char>, Option<Seq<Seq<char>>>)>,
) -> Seq<Seq<char>> {
    let it = items[i];
    if checkable(it) && asked(items, i + 1, max).contains(it.sha->0) {
        match answer_for(answers, it.sha->0) {
            Some(c) => changed_spec(it.about, c),
            None => seq![],
        }
    } else {
        seq![]
    }
}

pub open spec fn answers_view(v: Seq<(String, Option<Vec<String>>)>) -> Seq<(Seq<char>, Option<Seq<Seq<char>>>)> {
    v.map_values(
        |a: (String, Option<Vec<String>>)|
            (
                a.0@,
                match a.1 {
                    Some(c) => Some(c.deep_view()),
                    None => None,
                },
            ),
    )
}

fn contains_str(v: &Vec<String>, x: &str) -> (r: bool)
    ensures
        r == v.deep_view().contains(x@),
{
    let ghost vv = v.deep_view();
    let mut i: usize = 0;
    while i < v.len()
        invariant
            vv == v.deep_view(),
            i <= v@.len(),
            forall|k: int| 0 <= k < i ==> vv[k] != x@,
        decreases v@.len() - i,
    {
        if str_eq(v[i].as_str(), x) {
            proof {
                assert(vv[i as int] == x@);
            }
            return true;
        }
        i += 1;
    }
    false
}

/// The commits to ask git about, in the order the items list them: one
/// per distinct commit of an item with paths, up to `max_commits`.
pub fn commits_to_ask(items: &[Item], max_commits: usize) -> (r: Vec<String>)
    ensures
        r.deep_view() == asked(items_view(items@), items@.len() as int, max_commits as nat),
{
    let ghost iv = items_view(items@);
    let mut out: Vec<String> = Vec::new();
    let mut i: usize = 0;
    proof {
        assert(out.deep_view() =~= Seq::<Seq<char>>::empty());
    }
    while i < items.len()
        invariant
            iv == items_view(items@),
            i <= items@.len(),
            out.deep_view() == asked(iv, i as int, max_commits as nat),
        decreases items@.len() - i,
    {
        let it = &items[i];
        proof {
            assert(iv[i as int] == it.view());
        }
        match &it.sha {
            Some(sha) => {
                if it.about.len() > 0 && !contains_str(&out, sha.as_str()) && out.len() < max_commits {
                    let ghost before = out.deep_view();
                    out.push(sha.clone());
                    proof {
                        assert(out.deep_view() =~= before.push(sha@));
                    }
                }
            },
            None => {},
        }
        i += 1;
    }
    out
}

fn answer_exec(answers: &[(String, Option<Vec<String>>)], sha: &str) -> (r: Option<Vec<String>>)
    ensures
        match r {
            Some(c) => answer_for(answers_view(answers@), sha@) == Some(c.deep_view()),
            None => answer_for(answers_view(answers@), sha@) is None,
        },
{
    let ghost av = answers_view(answers@);
    let mut i: usize = 0;
    proof {
        assert(av.skip(0) =~= av);
    }
    while i < answers.len()
        invariant
            av == answers_view(answers@),
            i <= answers@.len(),
            answer_for(av.skip(i as int), sha@) == answer_for(av, sha@),
        decreases answers@.len() - i,
    {
        proof {
            assert(av.skip(i as int)[0] == av[i as int]);
            assert(av.skip(i as int).drop_first() =~= av.skip(i + 1));
        }
        if str_eq(answers[i].0.as_str(), sha) {
            return match &answers[i].1 {
                Some(c) => Some(crate::strset::copy_strs(c)),
                None => None,
            };
        }
        i += 1;
    }
    None
}

/// For each item, the paths it is about that changed since it was saved,
/// given what git answered for each commit of `commits_to_ask`. Items
/// past the first `max_commits` commits, or without paths, report nothing.
pub fn staleness(items: &[Item], max_commits: usize, answers: &[(String, Option<Vec<String>>)]) -> (r: Vec<
    Vec<String>,
>)
    ensures
        r@.len() == items@.len(),
        forall|i: int|
            0 <= i < items@.len() ==> (#[trigger] r@[i]).deep_view() == stale_of(
                items_view(items@),
                i,
                max_commits as nat,
                answers_view(answers@),
            ),
{
    let ghost iv = items_view(items@);
    let ghost av = answers_view(answers@);
    let mut seen: Vec<String> = Vec::new();
    let mut out: Vec<Vec<String>> = Vec::new();
    let mut i: usize = 0;
    proof {
        assert(seen.deep_view() =~= Seq::<Seq<char>>::empty());
    }
    while i < items.len()
        invariant
            iv == items_view(items@),
            av == answers_view(answers@),
            i <= items@.len(),
            out@.len() == i,
            seen.deep_view() == asked(iv, i as int, max_commits as nat),
            forall|k: int|
                0 <= k < i ==> (#[trigger] out@[k]).deep_view() == stale_of(iv, k, max_commits as nat, av),
        decreases items@.len() - i,
    {
        let it = &items[i];
        proof {
            assert(iv[i as int] == it.view());
        }
        let mut got: Vec<String> = Vec::new();
        match &it.sha {
            Some(sha) => {
                if it.about.len() > 0 && !contains_str(&seen, sha.as_str()) && seen.len() < max_commits {
                    let ghost before = seen.deep_view();
                    seen.push(sha.clone());
                    proof {
                        assert(seen.deep_view() =~= before.push(sha@));
                    }
                }
                proof {
                    assert(asked(iv, i + 1, max_commits as nat) == seen.deep_view());
                }
                if it.about.len() > 0 && contains_str(&seen, sha.as_str()) {
                    match answer_exec(answers, sha.as_str()) {
                        Some(c) => {
                            got = it.changed(&c);
                            proof {
                                assert(c@.map_values(|s: String| s@) =~= c.deep_view());
                            }
                        },
                        None => {},
                    }
                }
            },
            None => {},
        }
        proof {
            assert(got.deep_view() == stale_of(iv, i as int, max_commits as nat, av)) by {
                if got@.len() == 0 {
                    assert(got.deep_view() =~= Seq::<Seq<char>>::empty());
                }
            }
        }
        out.push(got);
        i += 1;
    }
    out
}

pub open spec fn dir_for_spec(paths_shared: Seq<char>, kind: Kind) -> Seq<char> {
    join_spec(paths_shared, kind_name(kind) + "s"@)
}

pub fn dir_for(paths: &Paths, kind: Kind) -> (r: String)
    ensures
        r@ == dir_for_spec(paths.shared@, kind),
{
    let d = kind.dir_name();
    join(paths.shared.as_str(), d.as_str())
}

// ---------------------------------------------------------------------------
// Remembering
// ---------------------------------------------------------------------------

pub struct NewItem<'a> {
    pub kind: Kind,
    pub text: &'a str,
    pub files: &'a [String],
    pub session: Option<&'a str>,
}

/// Why an item was not saved, for the CLI to explain.
#[derive(Debug)]
pub enum NotSaved {
    Empty,
    AlreadyRemembered(String),
}

impl NotSaved {
    pub fn message(&self) -> (r: String)
        ensures
            r@ == match self {
                NotSaved::Empty => "nothing to remember: text is empty"@,
                NotSaved::AlreadyRemembered(at) => "already remembered in "@ + at@,
            },
    {
        match self {
            NotSaved::Empty => "nothing to remember: text is empty".to_string(),
            NotSaved::AlreadyRemembered(at) => {
                let mut v = chars_of("already remembered in ");
                push_text(&mut v, at.as_str());
                string_of(&v)
            },
        }
    }
}

/// The first line of `ls` that is not blank, trimmed; empty when none.
pub open spec fn first_line(ls: Seq<Seq<char>>) -> Seq<char>
    decreases ls.len(),
{
    if ls.len() == 0 {
        seq![]
    } else if trim_spec(ls[0]).len() > 0 {
        trim_spec(ls[0])
    } else {
        first_line(ls.drop_first())
    }
}

/// First non-empty line, without markdown heading marks, capped.
pub open spec fn title_spec(text: Seq<char>) -> Seq<char> {
    truncate_spec(trim_spec(strip_all(first_line(lines_of(text)), "#"@)), 160)
}

/// First non-empty line, without markdown heading marks, capped.
pub fn title_of(text: &str) -> (r: String)
    ensures
        r@ == title_spec(text@),
{
    let ls = lines(&chars_of(text));
    let ghost lv = ls.deep_view();
    let mut line: Vec<char> = Vec::new();
    let mut i: usize = 0;
    let mut found = false;
    proof {
        assert(lv.skip(0) =~= lv);
    }
    while i < ls.len() && !found
        invariant
            lv == ls.deep_view(),
            lv == lines_of(text@),
            i <= ls@.len(),
            found ==> line@ == first_line(lv),
            !found ==> first_line(lv.skip(i as int)) == first_line(lv),
            !found ==> line@.len() == 0,
        decreases ls@.len() - i + if found {
            0int
        } else {
            1int
        },
    {
        proof {
            assert(lv.skip(i as int)[0] == ls@[i as int]@);
            assert(lv.skip(i as int).drop_first() =~= lv.skip(i + 1));
        }
        let t = trim(&ls[i]);
        if t.len() > 0 {
            line = t;
            found = true;
        } else {
            i += 1;
        }
    }
    proof {
        if !found {
            assert(lv.skip(ls@.len() as int) =~= Seq::<Seq<char>>::empty());
            assert(line@ =~= first_line(lv));
        }
    }
    let hash = chars_of("#");
    let s = strip_all_exec(&line, &hash);
    let t = trim(&s);
    let r = truncate_chars(&t, 160);
    string_of(&r)
}

/// What `char::to_lowercase` gives for `c`.
pub uninterp spec fn char_lowercase(c: char) -> Seq<char>;

/// `char::to_lowercase`, collected. Claims: the result is the named
/// `char_lowercase` of `c`, and for an ASCII character it is that
/// character in lower case.
#[verifier::external_body]
fn lowercase_char(c: char) -> (r: Vec<char>)
    ensures
        r@ == char_lowercase(c),
        (c as u32) < 0x80 ==> r@ == seq![crate::text::ascii_lower_char(c)],
{
    c.to_lowercase().collect()
}

/// The title in lower case, character by character.
pub open spec fn lowered(t: Seq<char>) -> Seq<char>
    decreases t.len(),
{
    if t.len() == 0 {
        seq![]
    } else {
        lowered(t.drop_last()) + char_lowercase(t.last())
    }
}

/// One character of a slug: ASCII letters and digits are kept, anything
/// else becomes one `-` between words.
pub open spec fn slug_step(s: Seq<char>, c: char) -> Seq<char> {
    if is_ascii_alnum(c) {
        s.push(c)
    } else if s.len() > 0 && s.last() != '-' {
        s.push('-')
    } else {
        s
    }
}

/// The slug after the first `n` characters of `l`; it stops growing once
/// it has 60 characters.
pub open spec fn slug_build(l: Seq<char>, n: int) -> Seq<char>
    decreases n,
{
    if n <= 0 {
        seq![]
    } else {
        let s = slug_build(l, n - 1);
        if s.len() >= 60 {
            s
        } else {
            slug_step(s, l[n - 1])
        }
    }
}

/// A file stem for a title: ASCII, lower case, words joined by `-`, at
/// most 60 characters; `item` when nothing is left.
pub open spec fn slug_spec(title: Seq<char>) -> Seq<char> {
    let l = lowered(title);
    let s = strip_trailing(slug_build(l, l.len() as int), '-');
    if s.len() == 0 {
        "item"@
    } else {
        s
    }
}

proof fn lemma_slug_full(l: Seq<char>, i: int, j: int)
    requires
        0 <= i <= j,
        slug_build(l, i).len() >= 60,
    ensures
        slug_build(l, j) == slug_build(l, i),
    decreases j - i,
{
    if j > i {
        lemma_slug_full(l, i, j - 1);
    }
}

proof fn lemma_slug_len(l: Seq<char>, n: int)
    ensures
        slug_build(l, n).len() <= 60,
    decreases n,
{
    if n > 0 {
        lemma_slug_len(l, n - 1);
    }
}

proof fn lemma_strip_trailing_len(s: Seq<char>, c: char)
    ensures
        strip_trailing(s, c).len() <= s.len(),
    decreases s.len(),
{
    if s.len() > 0 && s.last() == c {
        lemma_strip_trailing_len(s.drop_last(), c);
    }
}

pub fn slug(title: &str) -> (r: String)
    ensures
        r@ == slug_spec(title@),
        r@.len() <= 60,
{
    let t = chars_of(title);
    let mut l: Vec<char> = Vec::new();
    let mut i: usize = 0;
    proof {
        assert(t@.take(0) =~= Seq::<char>::empty());
    }
    while i < t.len()
        invariant
            i <= t@.len(),
            l@ == lowered(t@.take(i as int)),
        decreases t@.len() - i,
    {
        let low = lowercase_char(t[i]);
        push_all(&mut l, &low);
        proof {
            assert(t@.take(i + 1).drop_last() =~= t@.take(i as int));
        }
        i += 1;
    }
    proof {
        assert(t@.take(t@.len() as int) =~= t@);
    }
    let mut s: Vec<char> = Vec::new();
    let mut k: usize = 0;
    while k < l.len() && s.len() < 60
        invariant
            k <= l@.len(),
            s@ == slug_build(l@, k as int),
        decreases l@.len() - k,
    {
        let c = l[k];
        if ascii_alnum(c) {
            s.push(c);
        } else if s.len() > 0 && s[s.len() - 1] != '-' {
            s.push('-');
        }
        k += 1;
    }
    proof {
        if k < l@.len() {
            lemma_slug_full(l@, k as int, l@.len() as int);
        }
        lemma_slug_len(l@, l@.len() as int);
        lemma_strip_trailing_len(s@, '-');
    }
    let s = strip_trailing_exec(&s, '-');
    if s.len() == 0 {
        proof {
            reveal_strlit("item");
        }
        "item".to_string()
    } else {
        string_of(&s)
    }
}

/// The file for the `n`th try at a free name: `stem.md`, then
/// `stem-2.md`, `stem-3.md` and so on.
pub open spec fn candidate_spec(dir: Seq<char>, stem: Seq<char>, n: nat) -> Seq<char> {
    if n <= 1 {
        join_spec(dir, stem + ".md"@)
    } else {
        join_spec(dir, stem + "-"@ + crate::fmt::dec(n) + ".md"@)
    }
}

pub fn candidate_path(dir: &str, stem: &str, n: u64) -> (r: String)
    ensures
        r@ == candidate_spec(dir@, stem@, n as nat),
{
    let mut v = chars_of(stem);
    if n > 1 {
        push_text(&mut v, "-");
        push_dec(&mut v, n);
    }
    push_text(&mut v, ".md");
    let name = string_of(&v);
    join(dir, name.as_str())
}

/// Index of the first item of `kind` listed under `title`, or -1.
pub open spec fn first_dup(items: Seq<ItemV>, kind: Kind, title: Seq<char>) -> int
    decreases items.len(),
{
    if items.len() == 0 {
        -1
    } else {
        let b = first_dup(items.drop_last(), kind, title);
        if b >= 0 {
            b
        } else if items.last().kind == kind && items.last().title == title {
            items.len() - 1
        } else {
            -1
        }
    }
}

proof fn lemma_first_dup(items: Seq<ItemV>, kind: Kind, title: Seq<char>)
    ensures
        -1 <= first_dup(items, kind, title) < items.len(),
    decreases items.len(),
{
    if items.len() > 0 {
        lemma_first_dup(items.drop_last(), kind, title);
    }
}

/// Where a new item goes, or why it does not: the directory for its
/// kind and its file stem.
pub open spec fn prepare_spec(paths: (Seq<char>, Seq<char>), kind: Kind, text: Seq<char>, existing: Seq<ItemV>) -> Result<
    (Seq<char>, Seq<char>),
    Option<Seq<char>>,
> {
    let t = trim_spec(text);
    if t.len() == 0 {
        Err(None)
    } else {
        let title = title_spec(t);
        let d = first_dup(existing, kind, title);
        if d >= 0 {
            Err(Some(rel_spec(paths.0, existing[d].path)))
        } else {
            Ok((dir_for_spec(paths.1, kind), slug_spec(title)))
        }
    }
}

/// Checks a new item against the items already saved: an empty text and
/// a title its kind already has are refused. Gives the directory for the
/// item and the stem of its file name.
pub fn prepare(paths: &Paths, item: &NewItem, existing: &[Item]) -> (r: Result<(String, String), NotSaved>)
    ensures
        match r {
            Ok((dir, stem)) => prepare_spec((paths.root@, paths.shared@), item.kind, item.text@, items_view(existing@))
                == Ok::<(Seq<char>, Seq<char>), Option<Seq<char>>>((dir@, stem@)),
            Err(NotSaved::Empty) => prepare_spec(
                (paths.root@, paths.shared@),
                item.kind,
                item.text@,
                items_view(existing@),
            ) == Err::<(Seq<char>, Seq<char>), Option<Seq<char>>>(None),
            Err(NotSaved::AlreadyRemembered(at)) => prepare_spec(
                (paths.root@, paths.shared@),
                item.kind,
                item.text@,
                items_view(existing@),
            ) == Err::<(Seq<char>, Seq<char>), Option<Seq<char>>>(Some(at@)),
        },
{
    let ghost ev = items_view(existing@);
    let t = trim(&chars_of(item.text));
    if t.len() == 0 {
        return Err(NotSaved::Empty);
    }
    let ts = string_of(&t);
    let title = title_of(ts.as_str());
    proof {
        assert(ts@ == trim_spec(item.text@));
    }
    let mut i: usize = 0;
    proof {
        assert(ev.take(0) =~= Seq::<ItemV>::empty());
    }
    while i < existing.len()
        invariant
            ev == items_view(existing@),
            i <= existing@.len(),
            first_dup(ev.take(i as int), item.kind, title@) == -1,
            title@ == title_spec(trim_spec(item.text@)),
            trim_spec(item.text@).len() > 0,
        decreases existing@.len() - i,
    {
        let e = &existing[i];
        proof {
            assert(ev.take(i + 1).drop_last() =~= ev.take(i as int));
            assert(ev.take(i + 1).last() == e.view());
        }
        if e.kind == item.kind && str_eq(e.title.as_str(), title.as_str()) {
            proof {
                assert(first_dup(ev.take(i + 1), item.kind, title@) == i);
                lemma_first_dup_prefix(ev, item.kind, title@, i + 1);
                assert(ev[i as int] == e.view());
                assert(title@ == title_spec(trim_spec(item.text@)));
            }
            let at = paths.rel(e.path.as_str());
            proof {
                assert(at@ == rel_spec(paths.root@, ev[i as int].path));
                assert(prepare_spec((paths.root@, paths.shared@), item.kind, item.text@, ev) == Err::<
                    (Seq<char>, Seq<char>),
                    Option<Seq<char>>,
                >(Some(at@)));
            }
            return Err(NotSaved::AlreadyRemembered(at));
        }
        i += 1;
    }
    proof {
        assert(ev.take(existing@.len() as int) =~= ev);
    }
    let dir = dir_for(paths, item.kind);
    let stem = slug(title.as_str());
    Ok((dir, stem))
}

/// The first duplicate found in a prefix is the first of the whole list.
proof fn lemma_first_dup_prefix(items: Seq<ItemV>, kind: Kind, title: Seq<char>, n: int)
    requires
        0 <= n <= items.len(),
        first_dup(items.take(n), kind, title) >= 0,
    ensures
        first_dup(items, kind, title) == first_dup(items.take(n), kind, title),
    decreases items.len() - n,
{
    if n < items.len() {
        assert(items.take(n + 1).drop_last() =~= items.take(n));
        lemma_first_dup_prefix(items, kind, title, n + 1);
    } else {
        assert(items.take(n) =~= items);
    }
}

/// The item file: where and when it was learned, then the text.
pub open spec fn render_spec(
    kind: Kind,
    text: Seq<char>,
    files: Seq<Seq<char>>,
    session: Option<Seq<char>>,
    branch: Seq<char>,
    sha: Seq<char>,
    created: Seq<char>,
) -> Seq<char> {
    "---\nkind: "@ + kind_name(kind) + "\ncreated: "@ + created + "\n"@ + (if branch.len() > 0 {
        "branch: "@ + branch + "\n"@
    } else {
        seq![]
    }) + (if sha.len() > 0 {
        "sha: "@ + sha + "\n"@
    } else {
        seq![]
    }) + (match session {
        Some(s) => "session: "@ + s + "\n"@,
        None => seq![],
    }) + (if files.len() > 0 {
        "paths: "@ + join_text(files, ", "@) + "\n"@
    } else {
        seq![]
    }) + "---\n\n"@ + trim_spec(text) + "\n"@
}

pub open spec fn opt_str(o: Option<&str>) -> Option<Seq<char>> {
    match o {
        Some(s) => Some(s@),
        None => None,
    }
}

pub fn render(item: &NewItem, git: &GitState, created: &str) -> (r: String)
    ensures
        r@ == render_spec(
            item.kind,
            item.text@,
            item.files@.map_values(|s: String| s@),
            opt_str(item.session),
            git.branch@,
            git.sha@,
            created@,
        ),
{
    let mut v = chars_of("---\nkind: ");
    let ghost a = v@;
    push_text(&mut v, item.kind.as_str());
    push_text(&mut v, "\ncreated: ");
    push_text(&mut v, created);
    push_text(&mut v, "\n");
    let ghost head = v@;
    let mut b: Vec<char> = Vec::new();
    if !git.branch.as_str().is_empty() {
        push_text(&mut b, "branch: ");
        push_text(&mut b, git.branch.as_str());
        push_text(&mut b, "\n");
    }
    let mut s: Vec<char> = Vec::new();
    if !git.sha.as_str().is_empty() {
        push_text(&mut s, "sha: ");
        push_text(&mut s, git.sha.as_str());
        push_text(&mut s, "\n");
    }
    let mut se: Vec<char> = Vec::new();
    match item.session {
        Some(x) => {
            push_text(&mut se, "session: ");
            push_text(&mut se, x);
            push_text(&mut se, "\n");
        },
        None => {},
    }
    let mut p: Vec<char> = Vec::new();
    if item.files.len() > 0 {
        let mut fs: Vec<Vec<char>> = Vec::new();
        let mut i: usize = 0;
        while i < item.files.len()
            invariant
                i <= item.files@.len(),
                fs.deep_view() =~= item.files@.map_values(|s: String| s@).take(i as int),
            decreases item.files@.len() - i,
        {
            let c = chars_of(item.files[i].as_str());
            let ghost before = fs.deep_view();
            fs.push(c);
            proof {
                assert(c.deep_view() =~= c@);
                assert(fs.deep_view() =~= before.push(c@));
            }
            i += 1;
        }
        proof {
            assert(item.files@.map_values(|s: String| s@).take(item.files@.len() as int) =~= item.files@.map_values(
                |s: String| s@,
            ));
        }
        let sep = chars_of(", ");
        let j = crate::text::join(&fs, &sep);
        push_text(&mut p, "paths: ");
        push_all(&mut p, &j);
        push_text(&mut p, "\n");
    }
    let t = trim(&chars_of(item.text));
    push_all(&mut v, &b);
    push_all(&mut v, &s);
    push_all(&mut v, &se);
    push_all(&mut v, &p);
    push_text(&mut v, "---\n\n");
    push_all(&mut v, &t);
    push_text(&mut v, "\n");
    proof {
        assert(b@ == (if git.branch@.len() > 0 {
            "branch: "@ + git.branch@ + "\n"@
        } else {
            Seq::<char>::empty()
        })) by {
            if git.branch@.len() == 0 {
                assert(b@ =~= Seq::<char>::empty());
            }
        }
        assert(s@ == (if git.sha@.len() > 0 {
            "sha: "@ + git.sha@ + "\n"@
        } else {
            Seq::<char>::empty()
        })) by {
            if git.sha@.len() == 0 {
                assert(s@ =~= Seq::<char>::empty());
            }
        }
        assert(se@ == (match opt_str(item.session) {
            Some(x) => "session: "@ + x + "\n"@,
            None => Seq::<char>::empty(),
        })) by {
            if item.session is None {
                assert(se@ =~= Seq::<char>::empty());
            }
        }
        assert(p@ == (if item.files@.len() > 0 {
            "paths: "@ + join_text(item.files@.map_values(|s: String| s@), ", "@) + "\n"@
        } else {
            Seq::<char>::empty()
        })) by {
            if item.files@.len() == 0 {
                assert(p@ =~= Seq::<char>::empty());
            }
        }
        assert(v@ =~= render_spec(
            item.kind,
            item.text@,
            item.files@.map_values(|s: String| s@),
            opt_str(item.session),
            git.branch@,
            git.sha@,
            created@,
        ));
    }
    string_of(&v)
}

// ---------------------------------------------------------------------------
// Reading items back
// ---------------------------------------------------------------------------

/// The pieces of a `paths:` value: split at commas, trimmed, empty ones
/// dropped.
pub open spec fn path_list(v: Seq<char>) -> Seq<Seq<char>> {
    split_on(v, ',').map_values(|p: Seq<char>| trim_spec(p)).filter(|p: Seq<char>| p.len() > 0)
}

/// The item a file holds, when it has a title.
pub open spec fn item_spec(kind: Kind, path: Seq<char>, body: Seq<char>) -> Option<ItemV> {
    let title = title_spec(strip_spec(body));
    if title.len() == 0 {
        None
    } else {
        Some(
            ItemV {
                kind,
                path,
                title,
                created: match get_spec(body, "created"@) {
                    Some(c) => c,
                    None => seq![],
                },
                sha: match get_spec(body, "sha"@) {
                    Some(s) => if s.len() > 0 {
                        Some(s)
                    } else {
                        None
                    },
                    None => None,
                },
                about: match get_spec(body, "paths"@) {
                    Some(v) => path_list(v),
                    None => seq![],
                },
            },
        )
    }
}

fn path_list_exec(v: &str) -> (r: Vec<String>)
    ensures
        r.deep_view() == path_list(v@),
{
    let parts = split_char(&chars_of(v), ',');
    let ghost pv = parts.deep_view();
    let ghost tv = pv.map_values(|p: Seq<char>| trim_spec(p));
    let mut out: Vec<String> = Vec::new();
    let mut i: usize = 0;
    proof {
        assert(pv == split_on(v@, ','));
        assert(tv.take(0).filter(|p: Seq<char>| p.len() > 0) =~= Seq::<Seq<char>>::empty());
        assert(out.deep_view() =~= Seq::<Seq<char>>::empty());
    }
    while i < parts.len()
        invariant
            pv == parts.deep_view(),
            tv == pv.map_values(|p: Seq<char>| trim_spec(p)),
            i <= parts@.len(),
            out.deep_view() == tv.take(i as int).filter(|p: Seq<char>| p.len() > 0),
        decreases parts@.len() - i,
    {
        let t = trim(&parts[i]);
        proof {
            assert(pv[i as int] == parts@[i as int]@);
            assert(tv[i as int] == t@);
            crate::seqs::lemma_filter_step(tv, |p: Seq<char>| p.len() > 0, i as int);
        }
        if t.len() > 0 {
            let ghost before = out.deep_view();
            out.push(string_of(&t));
            proof {
                assert(out.deep_view() =~= before.push(t@));
            }
        }
        i += 1;
    }
    proof {
        assert(tv.take(parts@.len() as int) =~= tv);
    }
    out
}

/// The item a file holds, read from its body; `None` without a title.
pub fn item_from(kind: Kind, path: &str, body: &str) -> (r: Option<Item>)
    ensures
        match r {
            Some(it) => item_spec(kind, path@, body@) == Some(it.view()),
            None => item_spec(kind, path@, body@) is None,
        },
{
    let stripped = strip(body);
    let title = title_of(stripped.as_str());
    if title.as_str().is_empty() {
        return None;
    }
    let created = match get(body, "created") {
        Some(c) => c,
        None => String::new(),
    };
    let sha = match get(body, "sha") {
        Some(s) => if !s.as_str().is_empty() {
            Some(s)
        } else {
            None
        },
        None => None,
    };
    let about = match get(body, "paths") {
        Some(v) => path_list_exec(v.as_str()),
        None => Vec::new(),
    };
    proof {
        if about@.len() == 0 {
            assert(about.deep_view() =~= Seq::<Seq<char>>::empty());
        }
    }
    let it = Item { kind, path: path.to_string(), title, created, sha, about };
    proof {
        assert(it.view() =~= item_spec(kind, path@, body@)->0);
    }
    Some(it)
}


// ---------------------------------------------------------------------------
// Listing a directory of items
// ---------------------------------------------------------------------------

/// A file `list` reads: its name has the extension `md` (a bare `.md`
/// has none).
pub open spec fn is_md(path: Seq<char>) -> bool {
    let n = crate::okf::file_name(path);
    n.len() > 3 && crate::text::has_suffix(n, ".md"@)
}

/// The items among `files` (path and body), in the order given.
pub open spec fn items_in(kind: Kind, files: Seq<(Seq<char>, Seq<char>)>) -> Seq<ItemV>
    decreases files.len(),
{
    if files.len() == 0 {
        seq![]
    } else {
        let prev = items_in(kind, files.drop_last());
        let (p, b) = files.last();
        if is_md(p) && item_spec(kind, p, b) is Some {
            prev.push(item_spec(kind, p, b)->0)
        } else {
            prev
        }
    }
}

pub open spec fn list_keys(items: Seq<ItemV>) -> Seq<(Seq<char>, Seq<char>)> {
    items.map_values(|i: ItemV| (i.created, i.path))
}

pub open spec fn files_view(files: Seq<(String, String)>) -> Seq<(Seq<char>, Seq<char>)> {
    files.map_values(|f: (String, String)| (f.0@, f.1@))
}

/// The items of one kind's directory, given its files as (path, body):
/// newest first, then by path. All paths are in the one directory.
pub fn listed(kind: Kind, files: &[(String, String)]) -> (r: Vec<Item>)
    ensures
        exists|o: Seq<usize>|
            {
                &&& #[trigger] crate::order::pair_order(o, list_keys(items_in(kind, files_view(files@))))
                &&& items_view(r@) == o.map_values(|k: usize| items_in(kind, files_view(files@))[k as int])
            },
{
    let ghost fv = files_view(files@);
    let mut found: Vec<Item> = Vec::new();
    let mut i: usize = 0;
    while i < files.len()
        invariant
            fv == files_view(files@),
            i <= files@.len(),
            items_view(found@) == items_in(kind, fv.take(i as int)),
        decreases files@.len() - i,
    {
        let (p, b) = (&files[i].0, &files[i].1);
        proof {
            assert(fv.take(i + 1).drop_last() =~= fv.take(i as int));
            assert(fv.take(i + 1).last() == (p@, b@));
        }
        let name = crate::okf::file_name_exec(p.as_str());
        let ext = chars_of(".md");
        if name.len() > 3 && crate::text::ends_with(&name, &ext) {
            match item_from(kind, p.as_str(), b.as_str()) {
                Some(it) => {
                    let ghost before = items_view(found@);
                    found.push(it);
                    proof {
                        assert(items_view(found@) =~= before.push(it.view()));
                    }
                },
                None => {},
            }
        }
        i += 1;
    }
    proof {
        assert(fv.take(files@.len() as int) =~= fv);
    }
    let ghost fd = items_view(found@);
    let mut keys: Vec<(Vec<char>, Vec<char>)> = Vec::new();
    let mut j: usize = 0;
    while j < found.len()
        invariant
            fd == items_view(found@),
            j <= found@.len(),
            crate::order::pair_keys(keys@) =~= list_keys(fd).take(j as int),
        decreases found@.len() - j,
    {
        let it = &found[j];
        let k = (chars_of(it.created.as_str()), chars_of(it.path.as_str()));
        let ghost before = keys@;
        keys.push(k);
        proof {
            assert(keys@ =~= before.push(k));
            assert(list_keys(fd).take(j + 1) =~= list_keys(fd).take(j as int).push((fd[j as int].created, fd[j as int].path)));
        }
        j += 1;
    }
    proof {
        assert(list_keys(fd).take(found@.len() as int) =~= list_keys(fd));
    }
    let o = crate::order::order_by_pair(&keys);
    let ghost want = o@.map_values(|k: usize| fd[k as int]);
    let mut out: Vec<Item> = Vec::new();
    let mut m: usize = 0;
    while m < o.len()
        invariant
            crate::order::pair_order(o@, list_keys(fd)),
            fd == items_view(found@),
            want == o@.map_values(|k: usize| fd[k as int]),
            m <= o@.len(),
            items_view(out@) =~= want.take(m as int),
        decreases o@.len() - m,
    {
        let k = o[m];
        proof {
            assert(o@[m as int] < list_keys(fd).len());
        }
        let c = found[k].copy();
        let ghost before = items_view(out@);
        out.push(c);
        proof {
            assert(items_view(out@) =~= before.push(fd[k as int]));
            assert(want.take(m + 1) =~= want.take(m as int).push(fd[k as int]));
        }
        m += 1;
    }
    proof {
        assert(want.take(o@.len() as int) =~= want);
    }
    out
}

} // verus!
