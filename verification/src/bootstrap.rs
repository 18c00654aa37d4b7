//! Seed `.relay/project.md` for an existing repo using only rules:
//! manifest name, README lead, agent instruction files, languages,
//! hot files and recent commits. An LLM pass is optional and explicit.
//!
//! Reading the repo (its manifests, README, git history) is the caller's;
//! what the file says of it is decided here.

use vstd::prelude::*;

use crate::fmt::{dec, push_all, push_dec, push_text, truncate_chars, truncate_spec};
use crate::json::Json;
use crate::order::{num_order, order_by_num};
use crate::text::{
    chars_eq, chars_of, has_prefix, has_suffix, join, join_spec, lines, lines_of, slice, split_char, split_on,
    starts_with, string_of, trim, trim_spec, trim_start, trim_start_spec,
};

verus! {

/// What `relay init` learned of the repo.
pub struct Facts {
    pub name: String,
    /// The README's first paragraph.
    pub readme: String,
    pub langs: Vec<String>,
    /// Agent instruction files present at the root.
    pub agent_files: Vec<String>,
    /// The files changed most, with how often.
    pub hot: Vec<(String, usize)>,
    /// The latest commits, one line each.
    pub recent: Vec<String>,
}

pub open spec fn strs(v: Seq<String>) -> Seq<Seq<char>> {
    v.map_values(|s: String| s@)
}

pub open spec fn hot_lines(hot: Seq<(String, usize)>) -> Seq<char>
    decreases hot.len(),
{
    if hot.len() == 0 {
        seq![]
    } else {
        hot_lines(hot.drop_last()) + "- "@ + hot.last().0@ + " ("@ + dec(hot.last().1 as nat) + ")\n"@
    }
}

pub open spec fn commit_lines(cs: Seq<Seq<char>>) -> Seq<char>
    decreases cs.len(),
{
    if cs.len() == 0 {
        seq![]
    } else {
        commit_lines(cs.drop_last()) + "- "@ + cs.last() + "\n"@
    }
}

pub open spec fn conventions() -> Seq<char> {
    "## Conventions\n\n_Add the rules a new contributor needs on day one. Keep it short; decisions and gotchas go in their own files._\n"@
}

/// The seeded `project.md`.
pub open spec fn project_md_spec(
    name: Seq<char>,
    readme: Seq<char>,
    langs: Seq<Seq<char>>,
    agents: Seq<Seq<char>>,
    hot: Seq<(String, usize)>,
    recent: Seq<Seq<char>>,
    generated: Seq<char>,
) -> Seq<char> {
    "---\n"@ + "generated: "@ + generated + "\nby: relay init (rules only, edit freely)\n"@ + "---\n\n"@ + "# "@ + name
        + "\n\n"@ + (if readme.len() > 0 {
        readme + "\n\n"@
    } else {
        seq![]
    }) + (if langs.len() > 0 {
        "**Stack:** "@ + join_spec(langs, ", "@) + "\n\n"@
    } else {
        seq![]
    }) + (if agents.len() > 0 {
        "**Agent instructions:** "@ + join_spec(agents, ", "@) + " (read them first)\n\n"@
    } else {
        seq![]
    }) + (if hot.len() > 0 {
        "**Most changed files:**\n"@ + hot_lines(hot) + "\n"@
    } else {
        seq![]
    }) + (if recent.len() > 0 {
        "**Recent commits:**\n"@ + commit_lines(recent) + "\n"@
    } else {
        seq![]
    }) + conventions()
}

fn strings_chars(v: &Vec<String>) -> (r: Vec<Vec<char>>)
    ensures
        r.deep_view() == strs(v@),
{
    let mut r: Vec<Vec<char>> = Vec::new();
    let mut i: usize = 0;
    while i < v.len()
        invariant
            i <= v@.len(),
            r.deep_view() =~= strs(v@).take(i as int),
        decreases v@.len() - i,
    {
        let c = chars_of(v[i].as_str());
        let ghost before = r.deep_view();
        r.push(c);
        proof {
            assert(c.deep_view() =~= c@);
            assert(r.deep_view() =~= before.push(c@));
        }
        i += 1;
    }
    proof {
        assert(strs(v@).take(v@.len() as int) =~= strs(v@));
    }
    r
}

fn joined_block(v: &Vec<String>, head: &str, tail: &str) -> (r: Vec<char>)
    ensures
        r@ == if v@.len() > 0 {
            head@ + join_spec(strs(v@), ", "@) + tail@
        } else {
            Seq::<char>::empty()
        },
{
    let mut out: Vec<char> = Vec::new();
    if v.len() > 0 {
        push_text(&mut out, head);
        let c = strings_chars(v);
        let j = join(&c, &chars_of(", "));
        push_all(&mut out, &j);
        push_text(&mut out, tail);
    }
    proof {
        if v@.len() == 0 {
            assert(out@ =~= Seq::<char>::empty());
        }
    }
    out
}

/// The seeded `project.md`: name, README lead, stack, instruction files,
/// hot files and recent commits, then room for conventions.
pub fn project_md(f: &Facts, generated: &str) -> (r: String)
    ensures
        r@ == project_md_spec(
            f.name@,
            f.readme@,
            strs(f.langs@),
            strs(f.agent_files@),
            f.hot@,
            strs(f.recent@),
            generated@,
        ),
{
    let mut b = chars_of("---\n");
    push_text(&mut b, "generated: ");
    push_text(&mut b, generated);
    push_text(&mut b, "\nby: relay init (rules only, edit freely)\n");
    push_text(&mut b, "---\n\n");
    push_text(&mut b, "# ");
    push_text(&mut b, f.name.as_str());
    push_text(&mut b, "\n\n");
    let mut rd: Vec<char> = Vec::new();
    if !f.readme.as_str().is_empty() {
        push_text(&mut rd, f.readme.as_str());
        push_text(&mut rd, "\n\n");
    }
    let langs = joined_block(&f.langs, "**Stack:** ", "\n\n");
    let agents = joined_block(&f.agent_files, "**Agent instructions:** ", " (read them first)\n\n");
    let mut hot: Vec<char> = Vec::new();
    if f.hot.len() > 0 {
        push_text(&mut hot, "**Most changed files:**\n");
        let ghost start = hot@;
        let mut i: usize = 0;
        proof {
            assert(f.hot@.take(0) =~= Seq::<(String, usize)>::empty());
            assert(hot@ =~= start + hot_lines(f.hot@.take(0)));
        }
        while i < f.hot.len()
            invariant
                i <= f.hot@.len(),
                hot@ == start + hot_lines(f.hot@.take(i as int)),
            decreases f.hot@.len() - i,
        {
            proof {
                assert(f.hot@.take(i + 1).drop_last() =~= f.hot@.take(i as int));
            }
            push_text(&mut hot, "- ");
            push_text(&mut hot, f.hot[i].0.as_str());
            push_text(&mut hot, " (");
            push_dec(&mut hot, f.hot[i].1 as u64);
            push_text(&mut hot, ")\n");
            i += 1;
        }
        proof {
            assert(f.hot@.take(f.hot@.len() as int) =~= f.hot@);
        }
        push_text(&mut hot, "\n");
    }
    let mut rc: Vec<char> = Vec::new();
    if f.recent.len() > 0 {
        push_text(&mut rc, "**Recent commits:**\n");
        let ghost start = rc@;
        let ghost cs = strs(f.recent@);
        let mut i: usize = 0;
        proof {
            assert(cs.take(0) =~= Seq::<Seq<char>>::empty());
            assert(rc@ =~= start + commit_lines(cs.take(0)));
        }
        while i < f.recent.len()
            invariant
                cs == strs(f.recent@),
                i <= f.recent@.len(),
                rc@ == start + commit_lines(cs.take(i as int)),
            decreases f.recent@.len() - i,
        {
            proof {
                assert(cs.take(i + 1).drop_last() =~= cs.take(i as int));
            }
            push_text(&mut rc, "- ");
            push_text(&mut rc, f.recent[i].as_str());
            push_text(&mut rc, "\n");
            i += 1;
        }
        proof {
            assert(cs.take(f.recent@.len() as int) =~= cs);
        }
        push_text(&mut rc, "\n");
    }
    push_all(&mut b, &rd);
    push_all(&mut b, &langs);
    push_all(&mut b, &agents);
    push_all(&mut b, &hot);
    push_all(&mut b, &rc);
    push_text(
        &mut b,
        "## Conventions\n\n_Add the rules a new contributor needs on day one. Keep it short; decisions and gotchas go in their own files._\n",
    );
    proof {
        if f.readme@.len() == 0 {
            assert(rd@ =~= Seq::<char>::empty());
        }
        if f.hot@.len() == 0 {
            assert(hot@ =~= Seq::<char>::empty());
        }
        if f.recent@.len() == 0 {
            assert(rc@ =~= Seq::<char>::empty());
        }
        assert(b@ =~= project_md_spec(
            f.name@,
            f.readme@,
            strs(f.langs@),
            strs(f.agent_files@),
            f.hot@,
            strs(f.recent@),
            generated@,
        ));
    }
    string_of(&b)
}

// ---------------------------------------------------------------------------
// Line endings
// ---------------------------------------------------------------------------

/// The `.gitattributes` rule that keeps `.relay/` LF on every checkout.
pub const LF_RULE: &'static str = ".relay/** text eol=lf";

pub open spec fn has_relay_rule(ls: Seq<Seq<char>>) -> bool {
    exists|i: int| 0 <= i < ls.len() && has_prefix(trim_start_spec(#[trigger] ls[i]), ".relay/"@)
}

/// The new `.gitattributes`, or `None` when a line already speaks of
/// `.relay/`. Git for Windows converts to CRLF by default, and the same
/// item then reads differently per machine.
pub open spec fn lf_update_spec(existing: Seq<char>) -> Option<Seq<char>> {
    if has_relay_rule(lines_of(existing)) {
        None
    } else {
        let sep = if existing.len() == 0 || existing.last() == '\n' {
            seq![]
        } else {
            "\n"@
        };
        Some(existing + sep + ".relay/** text eol=lf"@ + "\n"@)
    }
}

pub fn lf_update(existing: &str) -> (r: Option<String>)
    ensures
        match r {
            Some(s) => lf_update_spec(existing@) == Some(s@),
            None => lf_update_spec(existing@) is None,
        },
{
    let e = chars_of(existing);
    let ls = lines(&e);
    let ghost lv = ls.deep_view();
    let p = chars_of(".relay/");
    let mut i: usize = 0;
    while i < ls.len()
        invariant
            lv == ls.deep_view(),
            lv == lines_of(existing@),
            p@ == ".relay/"@,
            i <= ls@.len(),
            forall|j: int| 0 <= j < i ==> !has_prefix(trim_start_spec(#[trigger] lv[j]), ".relay/"@),
        decreases ls@.len() - i,
    {
        let t = trim_start(&ls[i]);
        proof {
            assert(lv[i as int] == ls@[i as int]@);
        }
        if starts_with(&t, &p) {
            return None;
        }
        i += 1;
    }
    let mut v = e;
    if !(v.len() == 0 || v[v.len() - 1] == '\n') {
        v.push('\n');
    }
    push_text(&mut v, LF_RULE);
    push_text(&mut v, "\n");
    proof {
        reveal_strlit("\n");
    }
    Some(string_of(&v))
}

// ---------------------------------------------------------------------------
// Name, README lead, languages
// ---------------------------------------------------------------------------

/// `s` without the `"` it starts or ends with, as `trim_matches('"')`.
pub open spec fn unquoted(s: Seq<char>) -> Seq<char>
    decreases s.len(),
{
    if s.len() > 0 && s[0] == '"' {
        unquoted(s.drop_first())
    } else if s.len() > 0 && s.last() == '"' {
        unquoted(s.drop_last())
    } else {
        s
    }
}

/// The `name = ` line of a `Cargo.toml`, the first there is.
pub open spec fn cargo_name(ls: Seq<Seq<char>>) -> Option<Seq<char>>
    decreases ls.len(),
{
    if ls.len() == 0 {
        None
    } else if has_prefix(trim_spec(ls[0]), "name = "@) {
        Some(unquoted(trim_spec(ls[0]).skip(7)))
    } else {
        cargo_name(ls.drop_first())
    }
}

/// The project's name: `package.json`'s, else `Cargo.toml`'s, else the
/// directory's, else `project`.
pub open spec fn name_spec(package: Option<Json>, cargo: Option<Seq<char>>, dir: Option<Seq<char>>) -> Seq<char> {
    let from_pkg = match package {
        Some(j) => j.at("name"@).str_of(),
        None => None,
    };
    let from_cargo = match cargo {
        Some(c) => cargo_name(lines_of(c)),
        None => None,
    };
    match from_pkg {
        Some(n) => n,
        None => match from_cargo {
            Some(n) => n,
            None => match dir {
                Some(d) => d,
                None => "project"@,
            },
        },
    }
}

fn unquoted_exec(s: &[char]) -> (r: Vec<char>)
    ensures
        r@ == unquoted(s@),
{
    let mut a: usize = 0;
    let mut b: usize = s.len();
    proof {
        assert(s@.subrange(0, s@.len() as int) =~= s@);
    }
    while a < b && (s[a] == '"' || s[b - 1] == '"')
        invariant
            a <= b <= s@.len(),
            unquoted(s@.subrange(a as int, b as int)) == unquoted(s@),
        decreases b - a,
    {
        let ghost cur = s@.subrange(a as int, b as int);
        if s[a] == '"' {
            proof {
                assert(cur.drop_first() =~= s@.subrange(a + 1, b as int));
            }
            a += 1;
        } else {
            proof {
                assert(cur.drop_last() =~= s@.subrange(a as int, b - 1));
            }
            b -= 1;
        }
    }
    proof {
        assert(s@.subrange(0, s@.len() as int) =~= s@);
    }
    slice(s, a, b)
}

fn cargo_name_exec(text: &str) -> (r: Option<Vec<char>>)
    ensures
        match r {
            Some(n) => cargo_name(lines_of(text@)) == Some(n@),
            None => cargo_name(lines_of(text@)) is None,
        },
{
    let ls = lines(&chars_of(text));
    let ghost lv = ls.deep_view();
    let p = chars_of("name = ");
    let mut i: usize = 0;
    proof {
        assert(lv.skip(0) =~= lv);
    }
    while i < ls.len()
        invariant
            lv == ls.deep_view(),
            lv == lines_of(text@),
            p@ == "name = "@,
            i <= ls@.len(),
            cargo_name(lv.skip(i as int)) == cargo_name(lv),
        decreases ls@.len() - i,
    {
        proof {
            assert(lv.skip(i as int)[0] == ls@[i as int]@);
            assert(lv.skip(i as int).drop_first() =~= lv.skip(i + 1));
            reveal_strlit("name = ");
        }
        let t = trim(&ls[i]);
        if starts_with(&t, &p) {
            let rest = slice(&t, 7, t.len());
            return Some(unquoted_exec(&rest));
        }
        i += 1;
    }
    proof {
        assert(lv.skip(ls@.len() as int) =~= Seq::<Seq<char>>::empty());
    }
    None
}

/// The project's name: `package.json`'s (as read), else `Cargo.toml`'s
/// (its text), else the directory's name, else `project`.
pub fn detect_name(package: Option<&Json>, cargo: Option<&str>, dir: Option<&str>) -> (r: String)
    ensures
        r@ == name_spec(
            match package {
                Some(j) => Some(*j),
                None => None,
            },
            match cargo {
                Some(c) => Some(c@),
                None => None,
            },
            match dir {
                Some(d) => Some(d@),
                None => None,
            },
        ),
{
    match package {
        Some(j) => match j.get("name").as_str() {
            Some(n) => {
                return n.to_string();
            },
            None => {},
        },
        None => {},
    }
    match cargo {
        Some(c) => match cargo_name_exec(c) {
            Some(n) => {
                return string_of(&n);
            },
            None => {},
        },
        None => {},
    }
    match dir {
        Some(d) => d.to_string(),
        None => "project".to_string(),
    }
}

/// A README line that is not prose: a heading, a badge, markup or an
/// image.
pub open spec fn decoration(t: Seq<char>) -> bool {
    has_prefix(t, "#"@) || has_prefix(t, "[!["@) || has_prefix(t, "<"@) || has_prefix(t, "!"@)
}

/// The paragraph gathered from `ls`, starting with `para`.
pub open spec fn para_of(ls: Seq<Seq<char>>, para: Seq<Seq<char>>) -> Seq<Seq<char>>
    decreases ls.len(),
{
    if ls.len() == 0 {
        para
    } else {
        let t = trim_spec(ls[0]);
        if t.len() == 0 {
            if para.len() > 0 {
                para
            } else {
                para_of(ls.drop_first(), para)
            }
        } else if decoration(t) {
            para_of(ls.drop_first(), para)
        } else {
            para_of(ls.drop_first(), para.push(t))
        }
    }
}

/// First paragraph of the README that is not a heading or badge line.
pub open spec fn readme_lead_spec(text: Seq<char>) -> Seq<char> {
    truncate_spec(join_spec(para_of(lines_of(text), seq![]), " "@), 400)
}

fn decoration_exec(t: &[char]) -> (r: bool)
    ensures
        r == decoration(t@),
{
    starts_with(t, &chars_of("#")) || starts_with(t, &chars_of("[![")) || starts_with(t, &chars_of("<"))
        || starts_with(t, &chars_of("!"))
}

pub fn readme_lead(text: &str) -> (r: String)
    ensures
        r@ == readme_lead_spec(text@),
{
    let ls = lines(&chars_of(text));
    let ghost lv = ls.deep_view();
    let mut para: Vec<Vec<char>> = Vec::new();
    let mut i: usize = 0;
    let mut done = false;
    proof {
        assert(lv.skip(0) =~= lv);
        assert(para.deep_view() =~= Seq::<Seq<char>>::empty());
    }
    while i < ls.len() && !done
        invariant
            lv == ls.deep_view(),
            lv == lines_of(text@),
            i <= ls@.len(),
            done ==> para.deep_view() == para_of(lv, seq![]),
            !done ==> para_of(lv.skip(i as int), para.deep_view()) == para_of(lv, seq![]),
        decreases ls@.len() - i + if done {
            0int
        } else {
            1int
        },
    {
        proof {
            assert(lv.skip(i as int)[0] == ls@[i as int]@);
            assert(lv.skip(i as int).drop_first() =~= lv.skip(i + 1));
        }
        let t = trim(&ls[i]);
        if t.len() == 0 {
            if para.len() > 0 {
                done = true;
            } else {
                i += 1;
            }
        } else if decoration_exec(&t) {
            i += 1;
        } else {
            let ghost before = para.deep_view();
            para.push(t);
            proof {
                assert(t.deep_view() =~= t@);
                assert(para.deep_view() =~= before.push(t@));
            }
            i += 1;
        }
    }
    proof {
        if !done {
            assert(lv.skip(ls@.len() as int) =~= Seq::<Seq<char>>::empty());
        }
    }
    let j = join(&para, &chars_of(" "));
    let t = truncate_chars(&j, 400);
    string_of(&t)
}

/// The languages relay names, in the order ties are listed.
pub open spec fn lang_name(i: nat) -> Seq<char> {
    if i == 0 {
        "Rust"@
    } else if i == 1 {
        "TypeScript"@
    } else if i == 2 {
        "JavaScript"@
    } else if i == 3 {
        "Python"@
    } else if i == 4 {
        "Go"@
    } else if i == 5 {
        "Ruby"@
    } else if i == 6 {
        "JVM"@
    } else if i == 7 {
        "Swift"@
    } else if i == 8 {
        "C#"@
    } else if i == 9 {
        "PHP"@
    } else if i == 10 {
        "C/C++"@
    } else if i == 11 {
        "Elixir"@
    } else {
        "Dart"@
    }
}

pub open spec fn ext_is(e: Seq<char>, names: Seq<Seq<char>>) -> bool {
    names.contains(e)
}

/// The language a file extension is written in, by its place in
/// `lang_name`.
pub open spec fn lang_of(ext: Seq<char>) -> Option<nat> {
    if ext == "rs"@ {
        Some(0)
    } else if ext == "ts"@ || ext == "tsx"@ {
        Some(1)
    } else if ext == "js"@ || ext == "jsx"@ || ext == "mjs"@ || ext == "cjs"@ {
        Some(2)
    } else if ext == "py"@ {
        Some(3)
    } else if ext == "go"@ {
        Some(4)
    } else if ext == "rb"@ {
        Some(5)
    } else if ext == "java"@ || ext == "kt"@ {
        Some(6)
    } else if ext == "swift"@ {
        Some(7)
    } else if ext == "cs"@ {
        Some(8)
    } else if ext == "php"@ {
        Some(9)
    } else if ext == "c"@ || ext == "h"@ || ext == "cpp"@ || ext == "hpp"@ || ext == "cc"@ {
        Some(10)
    } else if ext == "ex"@ || ext == "exs"@ {
        Some(11)
    } else if ext == "dart"@ {
        Some(12)
    } else {
        None
    }
}

/// The part of a file name after its last `.` (all of it without one).
pub open spec fn extension(f: Seq<char>) -> Seq<char> {
    split_on(f, '.').last()
}

/// How many of `files` are written in language `l`.
pub open spec fn lang_count(files: Seq<Seq<char>>, l: nat) -> nat
    decreases files.len(),
{
    if files.len() == 0 {
        0
    } else {
        lang_count(files.drop_last(), l) + if lang_of(extension(files.last())) == Some(l) {
            1nat
        } else {
            0nat
        }
    }
}

pub open spec fn lang_counts(files: Seq<Seq<char>>) -> Seq<u128> {
    Seq::new(13, |l: int| lang_count(files, l as nat) as u128)
}

/// The languages `files` are written in, most files first (ties in the
/// order of `lang_name`), at most four: with `o` the order of the counts.
pub open spec fn languages_spec(o: Seq<usize>, counts: Seq<u128>) -> Seq<Seq<char>> {
    let present = o.filter(positive(counts));
    let shown = if present.len() <= 4 {
        present
    } else {
        present.take(4)
    };
    names_of(shown)
}

pub open spec fn positive(counts: Seq<u128>) -> spec_fn(usize) -> bool {
    |l: usize| counts[l as int] > 0
}

pub open spec fn names_of(s: Seq<usize>) -> Seq<Seq<char>> {
    s.map_values(|l: usize| lang_name(l as nat))
}

fn lang_of_exec(ext: &[char]) -> (r: Option<usize>)
    ensures
        match r {
            Some(i) => lang_of(ext@) == Some(i as nat),
            None => lang_of(ext@) is None,
        },
{
    let is = |s: &str| -> (b: bool)
        ensures
            b == (ext@ == s@),
        { chars_eq(ext, &chars_of(s)) };
    if is("rs") {
        Some(0)
    } else if is("ts") || is("tsx") {
        Some(1)
    } else if is("js") || is("jsx") || is("mjs") || is("cjs") {
        Some(2)
    } else if is("py") {
        Some(3)
    } else if is("go") {
        Some(4)
    } else if is("rb") {
        Some(5)
    } else if is("java") || is("kt") {
        Some(6)
    } else if is("swift") {
        Some(7)
    } else if is("cs") {
        Some(8)
    } else if is("php") {
        Some(9)
    } else if is("c") || is("h") || is("cpp") || is("hpp") || is("cc") {
        Some(10)
    } else if is("ex") || is("exs") {
        Some(11)
    } else if is("dart") {
        Some(12)
    } else {
        None
    }
}

fn lang_name_exec(i: usize) -> (r: &'static str)
    requires
        i < 13,
    ensures
        r@ == lang_name(i as nat),
{
    if i == 0 {
        "Rust"
    } else if i == 1 {
        "TypeScript"
    } else if i == 2 {
        "JavaScript"
    } else if i == 3 {
        "Python"
    } else if i == 4 {
        "Go"
    } else if i == 5 {
        "Ruby"
    } else if i == 6 {
        "JVM"
    } else if i == 7 {
        "Swift"
    } else if i == 8 {
        "C#"
    } else if i == 9 {
        "PHP"
    } else if i == 10 {
        "C/C++"
    } else if i == 11 {
        "Elixir"
    } else {
        "Dart"
    }
}

/// The languages the tracked `files` are written in, most files first,
/// at most four. Ties come in a fixed order (Rust, TypeScript,
/// JavaScript, Python, Go, Ruby, JVM, Swift, C#, PHP, C/C++, Elixir,
/// Dart).
pub fn languages(files: &[String]) -> (r: Vec<String>)
    ensures
        exists|o: Seq<usize>|
            #[trigger] num_order(o, lang_counts(strs(files@)), true) && r@.map_values(|s: String| s@)
                == languages_spec(o, lang_counts(strs(files@))),
{
    let ghost fv = strs(files@);
    let mut counts: Vec<u128> = Vec::new();
    let mut l: usize = 0;
    while l < 13
        invariant
            fv == strs(files@),
            l <= 13,
            counts@.len() == l,
            forall|j: int| 0 <= j < l ==> counts@[j] == lang_count(fv, j as nat) as u128,
        decreases 13 - l,
    {
        let mut n: u128 = 0;
        let mut i: usize = 0;
        while i < files.len()
            invariant
                fv == strs(files@),
                l < 13,
                i <= files@.len(),
                n <= i,
                n == lang_count(fv.take(i as int), l as nat),
            decreases files@.len() - i,
        {
            let f = chars_of(files[i].as_str());
            let parts = split_char(&f, '.');
            let ext = &parts[parts.len() - 1];
            proof {
                assert(fv.take(i + 1).drop_last() =~= fv.take(i as int));
                assert(fv.take(i + 1).last() == f@);
                assert(parts.deep_view().last() == ext@);
            }
            match lang_of_exec(ext) {
                Some(k) => {
                    if k == l {
                        n += 1;
                    }
                },
                None => {},
            }
            i += 1;
        }
        proof {
            assert(fv.take(files@.len() as int) =~= fv);
        }
        counts.push(n);
        l += 1;
    }
    proof {
        assert(counts@ =~= lang_counts(fv));
    }
    let o = order_by_num(&counts, true);
    let ghost pred = positive(counts@);
    let mut out: Vec<String> = Vec::new();
    let mut shown: usize = 0;
    let mut j: usize = 0;
    proof {
        assert(o@.take(0).filter(pred) =~= Seq::<usize>::empty());
        assert(out@.map_values(|s: String| s@) =~= Seq::<Seq<char>>::empty());
    }
    while j < o.len()
        invariant
            num_order(o@, counts@, true),
            counts@.len() == 13,
            pred == positive(counts@),
            j <= o@.len(),
            shown == out@.len(),
            shown <= 4,
            shown <= o@.take(j as int).filter(pred).len(),
            shown < 4 ==> o@.take(j as int).filter(pred).len() == shown,
            out@.map_values(|s: String| s@) == names_of(o@.take(j as int).filter(pred).take(shown as int)),
        decreases o@.len() - j,
    {
        let k = o[j];
        let ghost f = o@.take(j as int).filter(pred);
        let ghost before = out@.map_values(|s: String| s@);
        proof {
            assert(o@[j as int] < 13);
            crate::seqs::lemma_filter_step(o@, pred, j as int);
        }
        if counts[k] > 0 && shown < 4 {
            let name = lang_name_exec(k).to_string();
            out.push(name);
            proof {
                assert(f.push(k).take(shown + 1) =~= f.take(shown as int).push(k));
                assert(out@.map_values(|s: String| s@) =~= before.push(lang_name(k as nat)));
                assert(names_of(f.push(k).take(shown + 1)) =~= names_of(f.take(shown as int)).push(lang_name(k as nat)));
            }
            shown += 1;
        } else {
            proof {
                if counts@[k as int] > 0 {
                    assert(f.push(k).take(shown as int) =~= f.take(shown as int));
                }
            }
        }
        j += 1;
    }
    proof {
        assert(o@.take(o@.len() as int) =~= o@);
        let present = o@.filter(pred);
        if present.len() <= 4 {
            assert(present.take(shown as int) =~= present);
        }
        assert(counts@ == lang_counts(fv));
        assert(num_order(o@, lang_counts(fv), true));
    }
    out
}

} // verus!
