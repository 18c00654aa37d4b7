//! `.relay/` as an Open Knowledge Format bundle (okf.md, v0.2): a root
//! `index.md` that lists every concept, and a frontmatter migration for
//! items written before relay adopted the format. Anything that reads
//! OKF reads relay's memory; relay asks nothing extra of the user.
//!
//! Reading the bundle's files and writing them back is the caller's; the
//! texts written are made here.

use vstd::prelude::*;

use crate::fmt::{push_all, push_text};
use crate::frontmatter::{get, get_spec, get_text, get_text_spec, quote, quote_spec, strip, strip_spec};
use crate::memory::{first_line, items_view, kind_name, okf_type_spec, Item, ItemV, Kind};
use crate::order::{text_order, order_by_text};
use crate::text::{chars_of, has_prefix, lines, lines_of, slice, split_char, split_on, string_of, trim, trim_spec};

verus! {

pub const VERSION: &'static str = "0.2";

/// The last piece of a path: the file an item is stored in.
pub open spec fn file_name(p: Seq<char>) -> Seq<char> {
    split_on(p, '/').last()
}

pub(crate) fn file_name_exec(p: &str) -> (r: Vec<char>)
    ensures
        r@ == file_name(p@),
{
    let parts = split_char(&chars_of(p), '/');
    let last = parts.len() - 1;
    proof {
        assert(parts.deep_view()[last as int] == parts@[last as int]@);
    }
    crate::text::copy_chars(&parts[last])
}

pub open spec fn kind_dir(kind: Kind) -> Seq<char> {
    kind_name(kind) + "s"@
}

/// One line per item of `kind`, in list order.
pub open spec fn item_links(items: Seq<ItemV>, kind: Kind) -> Seq<char>
    decreases items.len(),
{
    if items.len() == 0 {
        seq![]
    } else {
        let it = items.last();
        item_links(items.drop_last(), kind) + if it.kind == kind {
            "- ["@ + it.title + "]("@ + kind_dir(kind) + "/"@ + file_name(it.path) + ")\n"@
        } else {
            seq![]
        }
    }
}

pub open spec fn count_kind(items: Seq<ItemV>, kind: Kind) -> nat
    decreases items.len(),
{
    if items.len() == 0 {
        0
    } else {
        count_kind(items.drop_last(), kind) + if items.last().kind == kind {
            1nat
        } else {
            0nat
        }
    }
}

/// The section listing the items of `kind`; nothing when it has none.
pub open spec fn kind_section(items: Seq<ItemV>, kind: Kind) -> Seq<char> {
    if count_kind(items, kind) == 0 {
        seq![]
    } else {
        "## "@ + okf_type_spec(kind) + "s\n\n"@ + item_links(items, kind) + "\n"@
    }
}

pub open spec fn handoff_links(hs: Seq<(Seq<char>, Seq<char>)>) -> Seq<char>
    decreases hs.len(),
{
    if hs.len() == 0 {
        seq![]
    } else {
        handoff_links(hs.drop_last()) + "- ["@ + hs.last().1 + "](handoffs/"@ + hs.last().0 + ")\n"@
    }
}

pub open spec fn index_head(title: Seq<char>) -> Seq<char> {
    "---\nokf_version: \"0.2\"\n---\n\n# "@ + title + " · relay memory\n\n"@
        + "## Project\n\n- [project.md](project.md): what a session reads first.\n\n"@
}

/// The bundle's `index.md`: the format version, the project, every item
/// by kind in the brief's order, and the shared handoffs.
pub open spec fn index_spec(title: Seq<char>, items: Seq<ItemV>, hs: Seq<(Seq<char>, Seq<char>)>) -> Seq<char> {
    index_head(title) + kind_section(items, Kind::Rule) + kind_section(items, Kind::Gotcha) + kind_section(
        items,
        Kind::Decision,
    ) + if hs.len() > 0 {
        "## Handoffs\n\n"@ + handoff_links(hs) + "\n"@
    } else {
        seq![]
    }
}

fn kind_section_exec(items: &[Item], kind: Kind) -> (r: Vec<char>)
    ensures
        r@ == kind_section(items_view(items@), kind),
{
    let ghost iv = items_view(items@);
    let mut links: Vec<char> = Vec::new();
    let mut n: usize = 0;
    let mut i: usize = 0;
    proof {
        assert(iv.take(0) =~= Seq::<ItemV>::empty());
    }
    while i < items.len()
        invariant
            iv == items_view(items@),
            i <= items@.len(),
            n <= i,
            n == count_kind(iv.take(i as int), kind),
            links@ == item_links(iv.take(i as int), kind),
        decreases items@.len() - i,
    {
        let it = &items[i];
        proof {
            assert(iv.take(i + 1).drop_last() =~= iv.take(i as int));
            assert(iv.take(i + 1).last() == it.view());
        }
        let ghost before = links@;
        if it.kind == kind {
            push_text(&mut links, "- [");
            push_text(&mut links, it.title.as_str());
            push_text(&mut links, "](");
            let d = kind.dir_name();
            push_text(&mut links, d.as_str());
            push_text(&mut links, "/");
            let f = file_name_exec(it.path.as_str());
            push_all(&mut links, &f);
            push_text(&mut links, ")\n");
            n += 1;
            proof {
                assert(links@ =~= before + ("- ["@ + it.title@ + "]("@ + kind_dir(kind) + "/"@ + file_name(it.path@)
                    + ")\n"@));
            }
        } else {
            proof {
                assert(links@ =~= before + Seq::<char>::empty());
            }
        }
        i += 1;
    }
    proof {
        assert(iv.take(items@.len() as int) =~= iv);
    }
    if n == 0 {
        return Vec::new();
    }
    let mut out = chars_of("## ");
    push_text(&mut out, kind.okf_type());
    push_text(&mut out, "s\n\n");
    push_all(&mut out, &links);
    push_text(&mut out, "\n");
    out
}

pub open spec fn pairs_view(v: Seq<(String, String)>) -> Seq<(Seq<char>, Seq<char>)> {
    v.map_values(|p: (String, String)| (p.0@, p.1@))
}

/// The bundle's `index.md` for a project `title`, its items and its
/// shared handoffs (file name and title, newest first).
pub fn index(title: &str, items: &[Item], handoffs: &[(String, String)]) -> (r: String)
    ensures
        r@ == index_spec(title@, items_view(items@), pairs_view(handoffs@)),
{
    let ghost hv = pairs_view(handoffs@);
    let mut b = chars_of("---\nokf_version: \"0.2\"\n---\n\n# ");
    push_text(&mut b, title);
    push_text(&mut b, " · relay memory\n\n");
    push_text(&mut b, "## Project\n\n- [project.md](project.md): what a session reads first.\n\n");
    let ghost head = b@;
    let r = kind_section_exec(items, Kind::Rule);
    push_all(&mut b, &r);
    let g = kind_section_exec(items, Kind::Gotcha);
    push_all(&mut b, &g);
    let d = kind_section_exec(items, Kind::Decision);
    push_all(&mut b, &d);
    let ghost kinds = b@;
    if handoffs.len() > 0 {
        push_text(&mut b, "## Handoffs\n\n");
        let mut i: usize = 0;
        let ghost start = b@;
        proof {
            assert(hv.take(0) =~= Seq::<(Seq<char>, Seq<char>)>::empty());
            assert(b@ =~= start + handoff_links(hv.take(0)));
        }
        while i < handoffs.len()
            invariant
                hv == pairs_view(handoffs@),
                i <= handoffs@.len(),
                b@ == start + handoff_links(hv.take(i as int)),
            decreases handoffs@.len() - i,
        {
            proof {
                assert(hv.take(i + 1).drop_last() =~= hv.take(i as int));
                assert(hv.take(i + 1).last() == (handoffs@[i as int].0@, handoffs@[i as int].1@));
            }
            push_text(&mut b, "- [");
            push_text(&mut b, handoffs[i].1.as_str());
            push_text(&mut b, "](handoffs/");
            push_text(&mut b, handoffs[i].0.as_str());
            push_text(&mut b, ")\n");
            i += 1;
        }
        push_text(&mut b, "\n");
        proof {
            assert(hv.take(handoffs@.len() as int) =~= hv);
        }
    }
    proof {
        assert(b@ =~= index_spec(title@, items_view(items@), hv));
    }
    string_of(&b)
}

// ---------------------------------------------------------------------------
// Shared handoffs
// ---------------------------------------------------------------------------

/// What the index shows of a shared handoff: when it ended, its file and
/// its title (the file name when it has none).
pub open spec fn handoff_entry_spec(file: Seq<char>, body: Seq<char>) -> (Seq<char>, Seq<char>, Seq<char>) {
    (
        match get_spec(body, "ended"@) {
            Some(e) => e,
            None => seq![],
        },
        file,
        match get_text_spec(body, "title"@) {
            Some(t) => t,
            None => file,
        },
    )
}

pub fn handoff_entry(file: &str, body: &str) -> (r: (String, String, String))
    ensures
        (r.0@, r.1@, r.2@) == handoff_entry_spec(file@, body@),
{
    let ended = match get(body, "ended") {
        Some(e) => e,
        None => String::new(),
    };
    let title = match get_text(body, "title") {
        Some(t) => t,
        None => file.to_string(),
    };
    (ended, file.to_string(), title)
}

pub open spec fn ended_keys(v: Seq<(String, String, String)>) -> Seq<Seq<char>> {
    v.map_values(|e: (String, String, String)| e.0@)
}

/// Shared handoffs newest first (by when they ended; ties keep their
/// order), as (file name, title).
pub fn newest_first(entries: &Vec<(String, String, String)>) -> (r: Vec<(String, String)>)
    ensures
        exists|o: Seq<usize>|
            {
                &&& #[trigger] text_order(o, ended_keys(entries@), true)
                &&& pairs_view(r@) == o.map_values(|k: usize| (entries@[k as int].1@, entries@[k as int].2@))
            },
{
    let ghost keys = ended_keys(entries@);
    let mut ks: Vec<Vec<char>> = Vec::new();
    let mut i: usize = 0;
    while i < entries.len()
        invariant
            keys == ended_keys(entries@),
            i <= entries@.len(),
            ks.deep_view() =~= keys.take(i as int),
        decreases entries@.len() - i,
    {
        let c = chars_of(entries[i].0.as_str());
        let ghost before = ks.deep_view();
        ks.push(c);
        proof {
            assert(c.deep_view() =~= c@);
            assert(ks.deep_view() =~= before.push(c@));
        }
        i += 1;
    }
    proof {
        assert(keys.take(entries@.len() as int) =~= keys);
    }
    let o = order_by_text(&ks, true);
    let mut out: Vec<(String, String)> = Vec::new();
    let ghost want = o@.map_values(|k: usize| (entries@[k as int].1@, entries@[k as int].2@));
    let mut j: usize = 0;
    while j < o.len()
        invariant
            text_order(o@, keys, true),
            keys.len() == entries@.len(),
            want == o@.map_values(|k: usize| (entries@[k as int].1@, entries@[k as int].2@)),
            j <= o@.len(),
            pairs_view(out@) =~= want.take(j as int),
        decreases o@.len() - j,
    {
        let k = o[j];
        proof {
            assert(o@[j as int] < keys.len());
        }
        let e = &entries[k];
        out.push((e.1.clone(), e.2.clone()));
        proof {
            assert(want.take(j + 1) =~= want.take(j as int).push((entries@[k as int].1@, entries@[k as int].2@)));
        }
        j += 1;
    }
    proof {
        assert(want.take(o@.len() as int) =~= want);
        assert(text_order(o@, ended_keys(entries@), true));
    }
    out
}

// ---------------------------------------------------------------------------
// Migration
// ---------------------------------------------------------------------------

/// The first line that starts with `# `, without it.
pub open spec fn first_h1(ls: Seq<Seq<char>>) -> Option<Seq<char>>
    decreases ls.len(),
{
    if ls.len() == 0 {
        None
    } else if has_prefix(ls[0], "# "@) {
        Some(ls[0].skip(2))
    } else {
        first_h1(ls.drop_first())
    }
}

/// A project.md from before OKF, given its fields: its title is the first
/// heading. `None` when it already carries a `type`.
pub open spec fn migrated_project_spec(body: Seq<char>) -> Option<Seq<char>> {
    if get_spec(body, "type"@) is Some {
        None
    } else {
        let text = strip_spec(body);
        let title = trim_spec(
            match first_h1(lines_of(text)) {
                Some(t) => t,
                None => "project"@,
            },
        );
        let at = match get_spec(body, "generated"@) {
            Some(a) => a,
            None => seq![],
        };
        Some(
            "---\ntype: Project\ntitle: "@ + quote_spec(title) + "\ntimestamp: "@ + at
                + "\ngenerated: {by: \"process:relay init\", at: "@ + at + "}\n---\n\n"@ + text,
        )
    }
}

fn first_h1_exec(text: &str) -> (r: Option<Vec<char>>)
    ensures
        match r {
            Some(t) => first_h1(lines_of(text@)) == Some(t@),
            None => first_h1(lines_of(text@)) is None,
        },
{
    let ls = lines(&chars_of(text));
    let ghost lv = ls.deep_view();
    let h = chars_of("# ");
    let mut i: usize = 0;
    proof {
        assert(lv.skip(0) =~= lv);
    }
    while i < ls.len()
        invariant
            lv == ls.deep_view(),
            lv == lines_of(text@),
            h@ == "# "@,
            i <= ls@.len(),
            first_h1(lv.skip(i as int)) == first_h1(lv),
        decreases ls@.len() - i,
    {
        proof {
            assert(lv.skip(i as int)[0] == ls@[i as int]@);
            assert(lv.skip(i as int).drop_first() =~= lv.skip(i + 1));
            reveal_strlit("# ");
        }
        if crate::text::starts_with(&ls[i], &h) {
            let l = &ls[i];
            return Some(slice(l, 2, l.len()));
        }
        i += 1;
    }
    proof {
        assert(lv.skip(ls@.len() as int) =~= Seq::<Seq<char>>::empty());
    }
    None
}

/// A project.md from before OKF: its title is the first heading.
pub fn migrated_project(body: &str) -> (r: Option<String>)
    ensures
        match r {
            Some(s) => migrated_project_spec(body@) == Some(s@),
            None => migrated_project_spec(body@) is None,
        },
{
    if get(body, "type").is_some() {
        return None;
    }
    let text = strip(body);
    let raw = match first_h1_exec(text.as_str()) {
        Some(t) => t,
        None => chars_of("project"),
    };
    let title = trim(&raw);
    let at = match get(body, "generated") {
        Some(a) => a,
        None => String::new(),
    };
    let mut v = chars_of("---\ntype: Project\ntitle: ");
    let t = string_of(&title);
    let q = quote(t.as_str());
    push_text(&mut v, q.as_str());
    push_text(&mut v, "\ntimestamp: ");
    push_text(&mut v, at.as_str());
    push_text(&mut v, "\ngenerated: {by: \"process:relay init\", at: ");
    push_text(&mut v, at.as_str());
    push_text(&mut v, "}\n---\n\n");
    push_text(&mut v, text.as_str());
    Some(string_of(&v))
}

pub open spec fn carried(body: Seq<char>, key: Seq<char>, as_key: Seq<char>) -> Seq<char> {
    match get_spec(body, key) {
        Some(v) => as_key + ": "@ + v + "\n"@,
        None => seq![],
    }
}

/// An item from before OKF with the fields it wants; `None` when `body`
/// already carries a `type`.
pub open spec fn migrated_spec(body: Seq<char>, kind: Kind) -> Option<Seq<char>> {
    if get_spec(body, "type"@) is Some {
        None
    } else {
        let text = strip_spec(body);
        let title = first_line(lines_of(text));
        let created = match get_spec(body, "created"@) {
            Some(c) => c,
            None => seq![],
        };
        Some(
            "---\ntype: "@ + okf_type_spec(kind) + "\ntitle: "@ + quote_spec(title) + "\ntimestamp: "@ + created
                + "\ngenerated: {by: \"process:relay\", at: "@ + created + "}\n"@ + carried(body, "branch"@, "branch"@)
                + carried(body, "sha"@, "sha"@) + carried(body, "session"@, "session"@) + carried(
                body,
                "paths"@,
                "paths"@,
            ) + carried(body, "expires"@, "stale_after"@) + "---\n\n"@ + text,
        )
    }
}

fn push_carried(v: &mut Vec<char>, body: &str, key: &str, as_key: &str)
    ensures
        final(v)@ == old(v)@ + carried(body@, key@, as_key@),
{
    match get(body, key) {
        Some(x) => {
            push_text(v, as_key);
            push_text(v, ": ");
            push_text(v, x.as_str());
            push_text(v, "\n");
        },
        None => {
            proof {
                assert(v@ =~= old(v)@ + Seq::<char>::empty());
            }
        },
    }
}

fn first_line_exec(text: &str) -> (r: Vec<char>)
    ensures
        r@ == first_line(lines_of(text@)),
{
    let ls = lines(&chars_of(text));
    let ghost lv = ls.deep_view();
    let mut i: usize = 0;
    proof {
        assert(lv.skip(0) =~= lv);
    }
    while i < ls.len()
        invariant
            lv == ls.deep_view(),
            lv == lines_of(text@),
            i <= ls@.len(),
            first_line(lv.skip(i as int)) == first_line(lv),
        decreases ls@.len() - i,
    {
        proof {
            assert(lv.skip(i as int)[0] == ls@[i as int]@);
            assert(lv.skip(i as int).drop_first() =~= lv.skip(i + 1));
        }
        let t = trim(&ls[i]);
        if t.len() > 0 {
            return t;
        }
        i += 1;
    }
    proof {
        assert(lv.skip(ls@.len() as int) =~= Seq::<Seq<char>>::empty());
    }
    Vec::new()
}

/// An item from before OKF with the fields it wants; `None` when `body`
/// already carries a `type`.
pub fn migrated(body: &str, kind: Kind) -> (r: Option<String>)
    ensures
        match r {
            Some(s) => migrated_spec(body@, kind) == Some(s@),
            None => migrated_spec(body@, kind) is None,
        },
{
    if get(body, "type").is_some() {
        return None;
    }
    let text = strip(body);
    let title = first_line_exec(text.as_str());
    let created = match get(body, "created") {
        Some(c) => c,
        None => String::new(),
    };
    let mut v = chars_of("---\ntype: ");
    push_text(&mut v, kind.okf_type());
    push_text(&mut v, "\ntitle: ");
    let t = string_of(&title);
    let q = quote(t.as_str());
    push_text(&mut v, q.as_str());
    push_text(&mut v, "\ntimestamp: ");
    push_text(&mut v, created.as_str());
    push_text(&mut v, "\ngenerated: {by: \"process:relay\", at: ");
    push_text(&mut v, created.as_str());
    push_text(&mut v, "}\n");
    push_carried(&mut v, body, "branch", "branch");
    push_carried(&mut v, body, "sha", "sha");
    push_carried(&mut v, body, "session", "session");
    push_carried(&mut v, body, "paths", "paths");
    push_carried(&mut v, body, "expires", "stale_after");
    push_text(&mut v, "---\n\n");
    push_text(&mut v, text.as_str());
    Some(string_of(&v))
}

} // verus!
