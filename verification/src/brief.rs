//! The `SessionStart` brief: project.md head + remembered items + latest
//! handoff, capped at roughly 600 tokens. File reads and one git call; no
//! LLM. What the caller read (project.md, the branch, the latest handoff,
//! the memory) goes in; the brief comes out.

use vstd::prelude::*;

use crate::fmt::{dec, push_all, push_dec, push_text};
use crate::handoff::{frontmatter, frontmatter_spec, strip_frontmatter, strip_frontmatter_spec};
use crate::limits::{BRIEF_MAX_CHARS, MEMORY_CHARS, PROJECT_MAX_CHARS};
use crate::memory::{items_view, kind_name, Item, ItemV};
use crate::text::{
    byte_len, byte_prefix, byte_prefix_exec, chars_eq, chars_of, cuts_at, slice, str_eq, string_of, trim, trim_spec,
    utf8_len, utf8_width, width,
};

verus! {

/// The longest start of `s` that fits in `n` bytes.
pub open spec fn within(s: Seq<char>, n: nat) -> Seq<char>
    decreases s.len(),
{
    if s.len() == 0 {
        s
    } else if utf8_len(s) <= n {
        s
    } else {
        within(s.drop_last(), n)
    }
}

/// Index of the last `\n` in `s`, or -1.
pub open spec fn last_nl(s: Seq<char>) -> int
    decreases s.len(),
{
    if s.len() == 0 {
        -1
    } else if s.last() == '\n' {
        s.len() - 1
    } else {
        last_nl(s.drop_last())
    }
}

/// `s` cut to `max` bytes at the last whole line, marked with `…`.
pub open spec fn cut_spec(s: Seq<char>, max: nat) -> Seq<char> {
    if utf8_len(s) <= max {
        s
    } else {
        let head = within(s, max);
        let k = last_nl(head);
        (if k >= 0 {
            head.take(k)
        } else {
            head
        }) + "\n…"@
    }
}

proof fn lemma_utf8_prefix(s: Seq<char>, k: int)
    requires
        0 <= k < s.len(),
    ensures
        utf8_len(s.take(k + 1)) == utf8_len(s.take(k)) + utf8_width(s[k]),
{
    assert(s.take(k + 1).drop_last() =~= s.take(k));
}

proof fn lemma_within(s: Seq<char>, n: nat, k: int)
    requires
        0 <= k <= s.len(),
        utf8_len(s.take(k)) <= n,
        k == s.len() || utf8_len(s.take(k + 1)) > n,
    ensures
        within(s, n) == s.take(k),
    decreases s.len(),
{
    if s.len() > 0 {
        if k == s.len() {
            assert(s.take(k) =~= s);
        } else {
            assert(utf8_len(s) > n) by {
                crate::text::lemma_utf8_len_concat(s.take(k + 1), s.skip(k + 1));
                assert(s.take(k + 1) + s.skip(k + 1) =~= s);
            }
            let d = s.drop_last();
            assert(d.take(k) =~= s.take(k));
            if k + 1 <= d.len() {
                assert(d.take(k + 1) =~= s.take(k + 1));
            }
            lemma_within(d, n, k);
        }
    }
}

fn within_exec(s: &[char], n: usize) -> (r: Vec<char>)
    ensures
        r@ == within(s@, n as nat),
{
    let mut k: usize = 0;
    let mut used: usize = 0;
    proof {
        assert(s@.take(0) =~= Seq::<char>::empty());
    }
    while k < s.len() && width(s[k]) <= n - used
        invariant
            k <= s@.len(),
            used <= n,
            used == utf8_len(s@.take(k as int)),
        decreases s@.len() - k,
    {
        proof {
            lemma_utf8_prefix(s@, k as int);
        }
        used = used + width(s[k]);
        k += 1;
    }
    proof {
        if k < s@.len() {
            lemma_utf8_prefix(s@, k as int);
        }
        lemma_within(s@, n as nat, k as int);
    }
    slice(s, 0, k)
}

fn last_nl_exec(s: &[char]) -> (r: Option<usize>)
    ensures
        match r {
            Some(k) => last_nl(s@) == k as int && k < s@.len(),
            None => last_nl(s@) == -1,
        },
{
    let mut n = s.len();
    proof {
        assert(s@.take(n as int) =~= s@);
    }
    while n > 0
        invariant
            n <= s@.len(),
            last_nl(s@.take(n as int)) == last_nl(s@),
        decreases n,
    {
        proof {
            assert(s@.take(n as int).last() == s@[n - 1]);
            assert(s@.take(n as int).drop_last() =~= s@.take(n - 1));
        }
        if s[n - 1] == '\n' {
            return Some(n - 1);
        }
        n -= 1;
    }
    None
}

/// `s` cut to `max` bytes at the last whole line, marked with `…`.
pub fn cut(s: &[char], max: usize) -> (r: Vec<char>)
    ensures
        r@ == cut_spec(s@, max as nat),
{
    if byte_len(s) <= max as u128 {
        return crate::text::copy_chars(s);
    }
    let head = within_exec(s, max);
    let mut out = match last_nl_exec(&head) {
        Some(k) => slice(&head, 0, k),
        None => head,
    };
    push_text(&mut out, "\n…");
    out
}

/// One line per item, grouped by kind, until the budget runs out; then
/// how many more there are and where.
pub open spec fn item_line(it: ItemV) -> Seq<char> {
    "- "@ + kind_name(it.kind) + ": "@ + it.title + "\n"@
}

/// The lines of the first items that fit in `MEMORY_CHARS` after `used`
/// bytes, and how many they are.
pub open spec fn fitting(items: Seq<ItemV>, used: nat) -> (Seq<char>, nat)
    decreases items.len(),
{
    if items.len() == 0 {
        (seq![], 0)
    } else {
        let l = item_line(items[0]);
        if used + utf8_len(l) > MEMORY_CHARS {
            (seq![], 0)
        } else {
            let (rest, n) = fitting(items.drop_first(), used + utf8_len(l));
            (l + rest, n + 1)
        }
    }
}

pub open spec fn memory_section_spec(items: Seq<ItemV>, shared_rel: Seq<char>) -> Seq<char> {
    let head = "## Remembered\n"@;
    let (lines, shown) = fitting(items, utf8_len(head));
    head + lines + (if shown < items.len() {
        "- … +"@ + dec((items.len() - shown) as nat) + " more in "@ + shared_rel + "\n"@
    } else {
        seq![]
    }) + "\n"@
}

proof fn lemma_fitting_len(items: Seq<ItemV>, used: nat)
    ensures
        fitting(items, used).1 <= items.len(),
    decreases items.len(),
{
    if items.len() > 0 {
        let l = item_line(items[0]);
        lemma_fitting_len(items.drop_first(), used + utf8_len(l));
    }
}

/// One line per item, in order: `- kind: title`.
pub open spec fn item_lines(items: Seq<ItemV>) -> Seq<char>
    decreases items.len(),
{
    if items.len() == 0 {
        seq![]
    } else {
        "- "@ + kind_name(items[0].kind) + ": "@ + items[0].title + "\n"@ + item_lines(items.drop_first())
    }
}

proof fn lemma_fitting_lines(items: Seq<ItemV>, used: nat)
    ensures
        fitting(items, used).0 == item_lines(items.take(fitting(items, used).1 as int)),
    decreases items.len(),
{
    lemma_fitting_len(items, used);
    if items.len() > 0 {
        let l = item_line(items[0]);
        if used + utf8_len(l) > MEMORY_CHARS {
            assert(items.take(0) =~= Seq::<ItemV>::empty());
        } else {
            let (rest, n) = fitting(items.drop_first(), used + utf8_len(l));
            lemma_fitting_lines(items.drop_first(), used + utf8_len(l));
            lemma_fitting_len(items.drop_first(), used + utf8_len(l));
            let t = items.take((n + 1) as int);
            assert(t[0] == items[0]);
            assert(t.drop_first() =~= items.drop_first().take(n as int));
        }
    } else {
        assert(items.take(0) =~= Seq::<ItemV>::empty());
    }
}

proof fn lemma_fitting_fits(items: Seq<ItemV>, used: nat)
    ensures
        used <= MEMORY_CHARS ==> used + utf8_len(fitting(items, used).0) <= MEMORY_CHARS,
        fitting(items, used).1 < items.len() ==> used + utf8_len(fitting(items, used).0) + utf8_len(
            item_line(items[fitting(items, used).1 as int]),
        ) > MEMORY_CHARS,
    decreases items.len(),
{
    if items.len() > 0 {
        let l = item_line(items[0]);
        if used + utf8_len(l) > MEMORY_CHARS {
            assert(utf8_len(Seq::<char>::empty()) == 0);
        } else {
            let u2 = used + utf8_len(l);
            let (rest, n) = fitting(items.drop_first(), u2);
            lemma_fitting_fits(items.drop_first(), u2);
            crate::text::lemma_utf8_len_concat(l, rest);
            if n + 1 < items.len() {
                assert(items.drop_first()[n as int] == items[(n + 1) as int]);
            }
        }
    }
}

/// The remembered section accounts for every item: it shows the lines of
/// the first `n` items, in order, as many as fit in `MEMORY_CHARS` bytes
/// with the heading, and when some are left out it says how many,
/// `items.len() - n`, and where they are.
pub proof fn law_memory_section_counts_the_rest(items: Seq<ItemV>, shared_rel: Seq<char>)
    ensures
        exists|n: nat|
            #![trigger items.take(n as int)]
            {
                let shown = "## Remembered\n"@ + item_lines(items.take(n as int));
                &&& n <= items.len()
                &&& utf8_len(shown) <= MEMORY_CHARS
                &&& (n < items.len() ==> utf8_len(shown + item_line(items[n as int])) > MEMORY_CHARS)
                &&& memory_section_spec(items, shared_rel) == shown + (if n < items.len() {
                    "- … +"@ + dec((items.len() - n) as nat) + " more in "@ + shared_rel + "\n"@
                } else {
                    seq![]
                }) + "\n"@
            },
{
    let head = "## Remembered\n"@;
    let h = utf8_len(head);
    lemma_fitting_len(items, h);
    lemma_fitting_lines(items, h);
    lemma_fitting_fits(items, h);
    reveal_strlit("## Remembered\n");
    crate::text::lemma_utf8_len_bounds(head);
    let n = fitting(items, h).1;
    let lines = fitting(items, h).0;
    crate::text::lemma_utf8_len_concat(head, lines);
    if n < items.len() {
        crate::text::lemma_utf8_len_concat(head + lines, item_line(items[n as int]));
    }
    let n = fitting(items, h).1;
    assert(items.take(n as int) == items.take(n as int));
}

fn memory_section(items: &[Item], shared_rel: &str) -> (r: Vec<char>)
    ensures
        r@ == memory_section_spec(items_view(items@), shared_rel@),
{
    let ghost iv = items_view(items@);
    let head = chars_of("## Remembered\n");
    let ghost h = utf8_len(head@);
    let mut lines: Vec<char> = Vec::new();
    let mut shown: usize = 0;
    let mut used: u128 = byte_len(&head);
    let mut going = true;
    proof {
        assert(iv.skip(0) =~= iv);
        assert(lines@ + fitting(iv, h).0 =~= fitting(iv, h).0);
    }
    while shown < items.len() && going
        invariant
            iv == items_view(items@),
            shown <= items@.len(),
            h == utf8_len(head@),
            used == h + utf8_len(lines@),
            fitting(iv, h) == (lines@ + fitting(iv.skip(shown as int), used as nat).0, (shown + fitting(
                iv.skip(shown as int),
                used as nat,
            ).1) as nat),
            !going ==> fitting(iv.skip(shown as int), used as nat) == (Seq::<char>::empty(), 0nat),
        decreases items@.len() - shown + if going {
            1int
        } else {
            0int
        },
    {
        let it = &items[shown];
        proof {
            assert(iv.skip(shown as int)[0] == it.view());
            assert(iv.skip(shown as int).drop_first() =~= iv.skip(shown + 1));
        }
        let mut line = chars_of("- ");
        push_text(&mut line, it.kind.as_str());
        push_text(&mut line, ": ");
        push_text(&mut line, it.title.as_str());
        push_text(&mut line, "\n");
        let lb = byte_len(&line);
        proof {
            assert(line@ == item_line(it.view()));
        }
        if used > MEMORY_CHARS as u128 || lb > MEMORY_CHARS as u128 - used {
            going = false;
        } else {
            let ghost before = lines@;
            push_all(&mut lines, &line);
            proof {
                crate::text::lemma_utf8_len_concat(before, line@);
                let (rest, n) = fitting(iv.skip(shown + 1), (used + lb) as nat);
                assert(before + (line@ + rest) =~= lines@ + rest);
            }
            used = used + lb;
            shown += 1;
        }
    }
    proof {
        if going {
            assert(iv.skip(shown as int) =~= Seq::<ItemV>::empty());
        }
        assert(lines@ + Seq::<char>::empty() =~= lines@);
        lemma_fitting_len(iv, h);
    }
    let mut s = head;
    push_all(&mut s, &lines);
    if shown < items.len() {
        push_text(&mut s, "- … +");
        push_dec(&mut s, (items.len() - shown) as u64);
        push_text(&mut s, " more in ");
        push_text(&mut s, shared_rel);
        push_text(&mut s, "\n");
    }
    push_text(&mut s, "\n");
    proof {
        assert(s@ =~= memory_section_spec(iv, shared_rel@));
    }
    s
}


pub open spec fn tail_lines() -> Seq<char> {
    "_Outputs shown by relay are compressed; `relay get <id>` prints the original._\n"@
        + "_When you settle a decision, hit a gotcha or learn a project rule, save it: `relay remember decision|gotcha|rule \"<one line>\"`._\n"@
}

pub open spec fn or_empty(o: Option<Seq<char>>) -> Seq<char> {
    match o {
        Some(v) => v,
        None => seq![],
    }
}

/// The heading of the last session: its day, and its branch when it is
/// not the current one.
pub open spec fn last_heading(body: Seq<char>, branch: Seq<char>) -> Seq<char> {
    let hb = or_empty(frontmatter_spec(body, "branch"@));
    let when = or_empty(frontmatter_spec(body, "ended"@));
    "## Last session ("@ + byte_prefix(when, 10) + (if hb != branch && hb.len() > 0 {
        ", branch "@ + hb
    } else {
        seq![]
    }) + ")\n"@
}

/// The brief: project.md's head, the remembered items, the latest
/// handoff cut to what room is left, and two reminders; nothing at all
/// when there is neither a project file, nor memory, nor a handoff.
pub open spec fn brief_spec(
    project: Seq<char>,
    branch: Seq<char>,
    handoff: Option<(Seq<char>, Seq<char>)>,
    items: Seq<ItemV>,
    root: Seq<char>,
    shared: Seq<char>,
) -> Seq<char> {
    let a = "# relay brief\n"@ + (if trim_spec(project).len() > 0 {
        cut_spec(trim_spec(strip_frontmatter_spec(project)), PROJECT_MAX_CHARS as nat) + "\n\n"@
    } else {
        seq![]
    }) + (if items.len() > 0 {
        memory_section_spec(items, crate::paths::rel_spec(root, shared))
    } else {
        seq![]
    });
    match handoff {
        Some((p, body)) => {
            let b = a + last_heading(body, branch);
            let room: nat = if utf8_len(b) + 200 <= BRIEF_MAX_CHARS {
                (BRIEF_MAX_CHARS - (utf8_len(b) + 200)) as nat
            } else {
                0
            };
            b + cut_spec(strip_frontmatter_spec(body), room) + "\n\n_Full handoff: "@ + crate::paths::rel_spec(root, p)
                + "_\n"@ + tail_lines()
        },
        None => if trim_spec(project).len() == 0 && items.len() == 0 {
            seq![]
        } else {
            a + tail_lines()
        },
    }
}

/// The handoff's `ended` field can be cut after its tenth byte.
pub open spec fn ended_cuts(body: Seq<char>) -> bool {
    cuts_at(or_empty(frontmatter_spec(body, "ended"@)), 10)
}

pub open spec fn opt_pair(h: Option<(&str, &str)>) -> Option<(Seq<char>, Seq<char>)> {
    match h {
        Some((p, b)) => Some((p@, b@)),
        None => None,
    }
}

#[verifier::rlimit(40)]
/// The `SessionStart` brief from `project` (project.md's text), the
/// current `branch`, the latest handoff (its path and body) and the
/// remembered items.
pub fn build(
    paths: &crate::paths::Paths,
    project: &str,
    branch: &str,
    handoff: Option<(&str, &str)>,
    items: &[Item],
) -> (r: String)
    requires
        match handoff {
            Some((_, b)) => ended_cuts(b@),
            None => true,
        },
    ensures
        r@ == brief_spec(project@, branch@, opt_pair(handoff), items_view(items@), paths.root@, paths.shared@),
{
    let mut out = chars_of("# relay brief\n");
    let blank_project = trim(&chars_of(project)).len() == 0;
    let ghost p0 = out@;
    if !blank_project {
        let body = strip_frontmatter(project);
        let t = trim(&chars_of(body.as_str()));
        let c = cut(&t, PROJECT_MAX_CHARS);
        push_all(&mut out, &c);
        push_text(&mut out, "\n\n");
    }
    let ghost p1 = out@;
    proof {
        assert(p1 == p0 + (if trim_spec(project@).len() > 0 {
            cut_spec(trim_spec(strip_frontmatter_spec(project@)), PROJECT_MAX_CHARS as nat) + "\n\n"@
        } else {
            Seq::<char>::empty()
        })) by {
            if trim_spec(project@).len() == 0 {
                assert(p1 =~= p0 + Seq::<char>::empty());
            }
        }
    }
    if items.len() > 0 {
        let shared_rel = paths.rel(paths.shared.as_str());
        let m = memory_section(items, shared_rel.as_str());
        push_all(&mut out, &m);
    }
    let ghost a = out@;
    proof {
        assert(a == p1 + (if items@.len() > 0 {
            memory_section_spec(items_view(items@), crate::paths::rel_spec(paths.root@, paths.shared@))
        } else {
            Seq::<char>::empty()
        })) by {
            if items@.len() == 0 {
                assert(a =~= p1 + Seq::<char>::empty());
            }
        }
    }
    let tail_a = "_Outputs shown by relay are compressed; `relay get <id>` prints the original._\n";
    let tail_b = "_When you settle a decision, hit a gotcha or learn a project rule, save it: `relay remember decision|gotcha|rule \"<one line>\"`._\n";
    match handoff {
        Some((p, body)) => {
            let hb = match frontmatter(body, "branch") {
                Some(v) => v,
                None => String::new(),
            };
            let when = match frontmatter(body, "ended") {
                Some(v) => v,
                None => String::new(),
            };
            let ghost b0 = out@;
            push_text(&mut out, "## Last session (");
            let day = byte_prefix_exec(&chars_of(when.as_str()), 10);
            push_all(&mut out, &day);
            if !str_eq(hb.as_str(), branch) && !hb.as_str().is_empty() {
                push_text(&mut out, ", branch ");
                push_text(&mut out, hb.as_str());
            }
            push_text(&mut out, ")\n");
            proof {
                assert(out@ =~= b0 + last_heading(body@, branch@));
            }
            let used = byte_len(&out);
            let room: usize = if used <= (BRIEF_MAX_CHARS - 200) as u128 {
                BRIEF_MAX_CHARS - (used as usize + 200)
            } else {
                0
            };
            let stripped = strip_frontmatter(body);
            let c = cut(&chars_of(stripped.as_str()), room);
            push_all(&mut out, &c);
            push_text(&mut out, "\n\n_Full handoff: ");
            let rel = paths.rel(p);
            push_text(&mut out, rel.as_str());
            push_text(&mut out, "_\n");
        },
        None => {
            if blank_project && items.len() == 0 {
                return String::new();
            }
        },
    }
    push_text(&mut out, tail_a);
    push_text(&mut out, tail_b);
    proof {
        assert(out@ =~= brief_spec(project@, branch@, opt_pair(handoff), items_view(items@), paths.root@, paths.shared@));
    }
    string_of(&out)
}

} // verus!
