//! Collisions before they happen: the files a task will likely touch,
//! against what other live sessions in this checkout are editing, the
//! uncommitted files they left, and branches not merged yet. What
//! overlaps is named with an order to integrate in, so the task starts
//! after the work it would conflict with instead of rebasing onto it.

use vstd::prelude::*;

use crate::claims::{claims_view, keys_of, live, name_spec, nameable, pairs_view, Claim, ClaimV};
use crate::fmt::{push_all, push_text};
use crate::order::{num_order, order_by_num};
use crate::text::{chars_of, cuts_at, join, join_spec, str_eq, strip_all, strip_all_exec, string_of};

verus! {

/// One piece of work in the way: who, and which of the files.
#[derive(Debug, PartialEq, Eq)]
pub struct Overlap {
    pub who: String,
    pub files: Vec<String>,
}

#[verifier::ext_equal]
pub struct OverlapV {
    pub who: Seq<char>,
    pub files: Seq<Seq<char>>,
}

impl Overlap {
    pub open spec fn view(&self) -> OverlapV {
        OverlapV { who: self.who@, files: self.files.deep_view() }
    }
}

pub open spec fn overlaps_view(v: Seq<Overlap>) -> Seq<OverlapV> {
    v.map_values(|o: Overlap| o.view())
}

pub open spec fn in_files(files: Seq<Seq<char>>) -> spec_fn(Seq<char>) -> bool {
    |l: Seq<char>| files.contains(l)
}

/// The likely files that `files` has, in `likely` order.
pub open spec fn overlap_spec(files: Seq<Seq<char>>, likely: Seq<Seq<char>>) -> Seq<Seq<char>> {
    likely.filter(in_files(files))
}

fn overlap(files: &Vec<String>, likely: &[String]) -> (r: Vec<String>)
    ensures
        r.deep_view() == overlap_spec(files.deep_view(), likely@.map_values(|s: String| s@)),
{
    let ghost lv = likely@.map_values(|s: String| s@);
    let ghost p = in_files(files.deep_view());
    let mut r: Vec<String> = Vec::new();
    let mut i: usize = 0;
    proof {
        assert(lv.take(0).filter(p) =~= Seq::<Seq<char>>::empty()) by {
            reveal(Seq::filter);
        }
    }
    while i < likely.len()
        invariant
            lv == likely@.map_values(|s: String| s@),
            p == in_files(files.deep_view()),
            i <= likely@.len(),
            r.deep_view() == lv.take(i as int).filter(p),
        decreases likely@.len() - i,
    {
        proof {
            crate::seqs::lemma_filter_step(lv, p, i as int);
            assert(lv[i as int] == likely@[i as int]@);
        }
        if crate::strset::has_str(files, likely[i].as_str()) {
            let ghost before = r.deep_view();
            r.push(likely[i].clone());
            proof {
                assert(r.deep_view() =~= before.push(lv[i as int]));
            }
        }
        i += 1;
    }
    proof {
        assert(lv.take(likely@.len() as int) =~= lv);
    }
    r
}

/// A session whose claim names any of the likely files.
pub open spec fn session_overlap(c: ClaimV, likely: Seq<Seq<char>>, now: nat) -> Option<OverlapV> {
    let hit = overlap_spec(keys_of(c.files), likely);
    if hit.len() == 0 {
        None
    } else {
        let state = if live(c, now) {
            "live"@
        } else {
            "ended, edits may be uncommitted"@
        };
        Some(OverlapV { who: "session "@ + name_spec(c) + " ("@ + state + ")"@, files: hit })
    }
}

pub open spec fn with_sessions_spec(cs: Seq<ClaimV>, likely: Seq<Seq<char>>, now: nat) -> Seq<OverlapV>
    decreases cs.len(),
{
    if cs.len() == 0 {
        seq![]
    } else {
        let rest = with_sessions_spec(cs.drop_last(), likely, now);
        match session_overlap(cs.last(), likely, now) {
            Some(o) => rest.push(o),
            None => rest,
        }
    }
}

fn keys_strings(files: &Vec<(String, String)>) -> (r: Vec<String>)
    ensures
        r.deep_view() == keys_of(pairs_view(files@)),
{
    let mut r: Vec<String> = Vec::new();
    let mut i: usize = 0;
    while i < files.len()
        invariant
            i <= files@.len(),
            r.deep_view() =~= keys_of(pairs_view(files@)).take(i as int),
        decreases files@.len() - i,
    {
        let ghost before = r.deep_view();
        r.push(files[i].0.clone());
        proof {
            assert(r.deep_view() =~= before.push(files@[i as int].0@));
            assert(keys_of(pairs_view(files@)).take(i + 1) =~= keys_of(pairs_view(files@)).take(i as int).push(
                files@[i as int].0@,
            ));
        }
        i += 1;
    }
    proof {
        assert(keys_of(pairs_view(files@)).take(files@.len() as int) =~= keys_of(pairs_view(files@)));
    }
    r
}

/// Live sessions editing any of `likely`, and ended ones whose
/// uncommitted edits to them are still claimed.
pub fn with_sessions(all: &[Claim], likely: &[String], now: u64) -> (r: Vec<Overlap>)
    requires
        nameable(claims_view(all@)),
    ensures
        overlaps_view(r@) == with_sessions_spec(claims_view(all@), likely@.map_values(|s: String| s@), now as nat),
{
    let ghost cv = claims_view(all@);
    let ghost lv = likely@.map_values(|s: String| s@);
    let mut r: Vec<Overlap> = Vec::new();
    let mut i: usize = 0;
    proof {
        assert(cv.take(0) =~= Seq::<ClaimV>::empty());
    }
    while i < all.len()
        invariant
            cv == claims_view(all@),
            lv == likely@.map_values(|s: String| s@),
            nameable(cv),
            i <= all@.len(),
            overlaps_view(r@) == with_sessions_spec(cv.take(i as int), lv, now as nat),
        decreases all@.len() - i,
    {
        let c = &all[i];
        proof {
            assert(cv.take(i + 1).drop_last() =~= cv.take(i as int));
            assert(cv.take(i + 1).last() == c.view());
            assert(cuts_at(cv[i as int].session, 8));
        }
        let keys = keys_strings(&c.files);
        let hit = overlap(&keys, likely);
        if hit.len() > 0 {
            let mut who = chars_of("session ");
            let name = c.name();
            push_text(&mut who, name.as_str());
            push_text(&mut who, " (");
            if c.is_live(now) {
                push_text(&mut who, "live");
            } else {
                push_text(&mut who, "ended, edits may be uncommitted");
            }
            push_text(&mut who, ")");
            let o = Overlap { who: string_of(&who), files: hit };
            let ghost before = r@;
            r.push(o);
            proof {
                assert(overlaps_view(r@) =~= overlaps_view(before).push(o.view()));
            }
        }
        i += 1;
    }
    proof {
        assert(cv.take(all@.len() as int) =~= cv);
    }
    r
}

/// `who changes a, b` or `who is on a, b`.
pub open spec fn overlap_lines(os: Seq<OverlapV>, verb: Seq<char>) -> Seq<char>
    decreases os.len(),
{
    if os.len() == 0 {
        seq![]
    } else {
        overlap_lines(os.drop_last(), verb) + "- "@ + os.last().who + verb + join_spec(os.last().files, ", "@)
            + "\n"@
    }
}

pub open spec fn file_counts(os: Seq<OverlapV>) -> Seq<u128> {
    os.map_values(|o: OverlapV| o.files.len() as u128)
}

/// Branches with the most overlap first, equal ones in their order.
pub open spec fn by_size(os: Seq<OverlapV>) -> Seq<OverlapV> {
    let ord = choose|ord: Seq<usize>| num_order(ord, file_counts(os), true);
    ord.map_values(|i: usize| os[i as int])
}

pub open spec fn branch_name(o: OverlapV) -> Seq<char> {
    strip_all(o.who, "branch "@)
}

pub open spec fn steps_spec(order: Seq<OverlapV>, sessions: bool) -> Seq<Seq<char>> {
    (if order.len() > 0 {
        seq![
            "merge "@ + join_spec(order.map_values(|o: OverlapV| branch_name(o)), ", then "@) + " first"@,
        ]
    } else {
        seq![]
    }) + (if sessions {
        seq!["let the sessions above finish those files or split the work by path"@]
    } else {
        seq![]
    })
}

/// What is in the way and the order to take it in.
pub open spec fn render_spec(sessions: Seq<OverlapV>, branches: Seq<OverlapV>) -> Seq<char> {
    if sessions.len() == 0 && branches.len() == 0 {
        seq![]
    } else {
        let order = by_size(branches);
        "\n## In the way\n"@ + overlap_lines(sessions, " is on "@) + overlap_lines(order, " changes "@) + "_Order: "@
            + join_spec(steps_spec(order, sessions.len() > 0), "; "@)
            + ", then start here; or work in a worktree._\n"@
    }
}

fn push_lines(out: &mut Vec<char>, os: &Vec<&Overlap>, verb: &str)
    ensures
        final(out)@ == old(out)@ + overlap_lines(os@.map_values(|o: &Overlap| o.view()), verb@),
{
    let ghost v = os@.map_values(|o: &Overlap| o.view());
    let ghost start = out@;
    let sep = chars_of(", ");
    let mut i: usize = 0;
    proof {
        assert(v.take(0) =~= Seq::<OverlapV>::empty());
    }
    while i < os.len()
        invariant
            v == os@.map_values(|o: &Overlap| o.view()),
            sep@ == ", "@,
            i <= os@.len(),
            out@ == start + overlap_lines(v.take(i as int), verb@),
        decreases os@.len() - i,
    {
        let o = os[i];
        push_text(out, "- ");
        push_text(out, o.who.as_str());
        push_text(out, verb);
        let fc = crate::text::strings_to_chars(&o.files);
        let j = join(&fc, &sep);
        push_all(out, &j);
        push_text(out, "\n");
        proof {
            assert(v.take(i + 1).drop_last() =~= v.take(i as int));
            assert(v.take(i + 1).last() == o.view());
        }
        i += 1;
    }
    proof {
        assert(v.take(os@.len() as int) =~= v);
    }
}

/// Sessions and branches in the way, in the order to integrate them.
pub fn render(sessions: &[Overlap], branches: &[Overlap]) -> (r: String)
    ensures
        r@ == render_spec(overlaps_view(sessions@), overlaps_view(branches@)),
{
    if sessions.len() == 0 && branches.len() == 0 {
        return String::new();
    }
    let ghost bv = overlaps_view(branches@);
    let mut counts: Vec<u128> = Vec::new();
    let mut i: usize = 0;
    while i < branches.len()
        invariant
            bv == overlaps_view(branches@),
            i <= branches@.len(),
            counts@ =~= file_counts(bv).take(i as int),
        decreases branches@.len() - i,
    {
        counts.push(branches[i].files.len() as u128);
        proof {
            assert(file_counts(bv).take(i + 1) =~= file_counts(bv).take(i as int).push(
                bv[i as int].files.len() as u128,
            ));
        }
        i += 1;
    }
    proof {
        assert(file_counts(bv).take(branches@.len() as int) =~= file_counts(bv));
    }
    let ord = order_by_num(&counts, true);
    proof {
        let c = choose|c: Seq<usize>| num_order(c, file_counts(bv), true);
        crate::order::lemma_num_order_unique(ord@, c, file_counts(bv), true);
    }
    let mut order: Vec<&Overlap> = Vec::new();
    let mut k: usize = 0;
    while k < ord.len()
        invariant
            bv == overlaps_view(branches@),
            crate::order::is_order(ord@, branches@.len()),
            k <= ord@.len(),
            order@.map_values(|o: &Overlap| o.view()) =~= ord@.take(k as int).map_values(|i: usize| bv[i as int]),
        decreases ord@.len() - k,
    {
        let ghost before = order@;
        order.push(&branches[ord[k]]);
        proof {
            assert(order@ == before.push(&branches@[ord@[k as int] as int]));
            assert(order@.map_values(|o: &Overlap| o.view()) =~= before.map_values(|o: &Overlap| o.view()).push(
                branches@[ord@[k as int] as int].view(),
            ));
            assert(bv[ord@[k as int] as int] == branches@[ord@[k as int] as int].view());
            assert(ord@.take(k + 1) =~= ord@.take(k as int).push(ord@[k as int]));
        }
        k += 1;
    }
    proof {
        assert(ord@.take(ord@.len() as int) =~= ord@);
    }
    let ghost ov = order@.map_values(|o: &Overlap| o.view());
    let mut srefs: Vec<&Overlap> = Vec::new();
    let mut s: usize = 0;
    while s < sessions.len()
        invariant
            s <= sessions@.len(),
            srefs@.map_values(|o: &Overlap| o.view()) =~= overlaps_view(sessions@).take(s as int),
        decreases sessions@.len() - s,
    {
        srefs.push(&sessions[s]);
        proof {
            assert(overlaps_view(sessions@).take(s + 1) =~= overlaps_view(sessions@).take(s as int).push(
                sessions@[s as int].view(),
            ));
        }
        s += 1;
    }
    proof {
        assert(overlaps_view(sessions@).take(sessions@.len() as int) =~= overlaps_view(sessions@));
    }
    let mut out = chars_of("\n## In the way\n");
    push_lines(&mut out, &srefs, " is on ");
    push_lines(&mut out, &order, " changes ");
    push_text(&mut out, "_Order: ");
    let mut steps: Vec<Vec<char>> = Vec::new();
    if order.len() > 0 {
        let mut names: Vec<Vec<char>> = Vec::new();
        let mut t: usize = 0;
        let pfx = chars_of("branch ");
        while t < order.len()
            invariant
                ov == order@.map_values(|o: &Overlap| o.view()),
                pfx@ == "branch "@,
                t <= order@.len(),
                names.deep_view() =~= ov.take(t as int).map_values(|o: OverlapV| branch_name(o)),
            decreases order@.len() - t,
        {
            let w = chars_of(order[t].who.as_str());
            let n = strip_all_exec(&w, &pfx);
            proof {
                assert(n.deep_view() =~= n@);
            }
            let ghost before = names.deep_view();
            names.push(n);
            proof {
                assert(names.deep_view() =~= before.push(n@));
                assert(ov.take(t + 1) =~= ov.take(t as int).push(ov[t as int]));
            }
            t += 1;
        }
        proof {
            assert(ov.take(order@.len() as int) =~= ov);
        }
        let sep = chars_of(", then ");
        let joined = join(&names, &sep);
        let mut step = chars_of("merge ");
        push_all(&mut step, &joined);
        push_text(&mut step, " first");
        proof {
            assert(step.deep_view() =~= step@);
        }
        steps.push(step);
    }
    if sessions.len() > 0 {
        let st = chars_of("let the sessions above finish those files or split the work by path");
        proof {
            assert(st.deep_view() =~= st@);
        }
        let ghost before = steps.deep_view();
        steps.push(st);
        proof {
            assert(steps.deep_view() =~= before.push(st@));
        }
    }
    proof {
        assert(steps.deep_view() =~= steps_spec(ov, sessions@.len() > 0));
    }
    let sep = chars_of("; ");
    let js = join(&steps, &sep);
    push_all(&mut out, &js);
    push_text(&mut out, ", then start here; or work in a worktree._\n");
    proof {
        assert(ov == by_size(bv));
    }
    string_of(&out)
}

/// Branches and the files each changes.
pub open spec fn branch_overlaps(bs: Seq<(Seq<char>, Seq<Seq<char>>)>, likely: Seq<Seq<char>>) -> Seq<OverlapV>
    decreases bs.len(),
{
    if bs.len() == 0 {
        seq![]
    } else {
        let rest = branch_overlaps(bs.drop_last(), likely);
        let hit = overlap_spec(bs.last().1, likely);
        if hit.len() > 0 {
            rest.push(OverlapV { who: "branch "@ + bs.last().0, files: hit })
        } else {
            rest
        }
    }
}

pub open spec fn branches_view(bs: Seq<(String, Vec<String>)>) -> Seq<(Seq<char>, Seq<Seq<char>>)> {
    bs.map_values(|b: (String, Vec<String>)| (b.0@, b.1.deep_view()))
}

/// The section on what is in the way of a task likely to touch `likely`:
/// other sessions' claims, and unmerged branches with the files each
/// changes.
pub fn section(claims: &[Claim], branches: &[(String, Vec<String>)], likely: &[String], now: u64) -> (r: String)
    requires
        nameable(claims_view(claims@)),
    ensures
        r@ == if likely@.len() == 0 {
            seq![]
        } else {
            render_spec(
                with_sessions_spec(claims_view(claims@), likely@.map_values(|s: String| s@), now as nat),
                branch_overlaps(branches_view(branches@), likely@.map_values(|s: String| s@)),
            )
        },
{
    if likely.len() == 0 {
        return String::new();
    }
    let sessions = with_sessions(claims, likely, now);
    let ghost bv = branches_view(branches@);
    let ghost lv = likely@.map_values(|s: String| s@);
    let mut bo: Vec<Overlap> = Vec::new();
    let mut i: usize = 0;
    proof {
        assert(bv.take(0) =~= Seq::<(Seq<char>, Seq<Seq<char>>)>::empty());
    }
    while i < branches.len()
        invariant
            bv == branches_view(branches@),
            lv == likely@.map_values(|s: String| s@),
            i <= branches@.len(),
            overlaps_view(bo@) == branch_overlaps(bv.take(i as int), lv),
        decreases branches@.len() - i,
    {
        proof {
            assert(bv.take(i + 1).drop_last() =~= bv.take(i as int));
            assert(bv.take(i + 1).last() == bv[i as int]);
        }
        let hit = overlap(&branches[i].1, likely);
        if hit.len() > 0 {
            let mut who = chars_of("branch ");
            push_text(&mut who, branches[i].0.as_str());
            let o = Overlap { who: string_of(&who), files: hit };
            let ghost before = bo@;
            bo.push(o);
            proof {
                assert(overlaps_view(bo@) =~= overlaps_view(before).push(o.view()));
            }
        }
        i += 1;
    }
    proof {
        assert(bv.take(branches@.len() as int) =~= bv);
    }
    render(&sessions, &bo)
}

} // verus!
