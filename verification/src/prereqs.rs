//! The Class step's soft warning when a class's multiclassing ability
//! prerequisites aren't met.
use vstd::prelude::*;
use crate::text::{decimal, join, join_strings, push_decimal, push_str, views};

verus! {

/// One ability minimum of a prerequisite: ability code, its display label,
/// and the minimum score.
pub struct PrereqTerm {
    pub ability: String,
    pub label: String,
    pub minimum: u8,
}

/// The score listed for `code` (the first entry for it), 0 when none is.
pub open spec fn score_of(scores: Seq<(String, u8)>, code: Seq<char>) -> u8
    decreases scores.len(),
{
    if scores.len() == 0 {
        0
    } else if scores[0].0@ == code {
        scores[0].1
    } else {
        score_of(scores.drop_first(), code)
    }
}

/// Every minimum of the group is met.
pub open spec fn group_met(scores: Seq<(String, u8)>, group: Seq<PrereqTerm>) -> bool {
    forall|i: int| 0 <= i < group.len() ==> score_of(scores, (#[trigger] group[i]).ability@) >= group[i].minimum
}

/// Some alternative group is met in full.
pub open spec fn prereqs_met(scores: Seq<(String, u8)>, groups: Seq<Vec<PrereqTerm>>) -> bool {
    exists|g: int| 0 <= g < groups.len() && #[trigger] group_met(scores, groups[g]@)
}

/// `"<label> <minimum>"`.
pub open spec fn term_text(t: PrereqTerm) -> Seq<char> {
    t.label@ + seq![' '] + decimal(t.minimum as nat)
}

/// A group's minimums joined with `" and "`.
pub open spec fn group_text(group: Seq<PrereqTerm>) -> Seq<char> {
    join(group.map_values(|t: PrereqTerm| term_text(t)), " and "@)
}

/// The warning: `"⚠ Requires "` and the alternatives joined with `" or "`.
pub open spec fn warning_text(groups: Seq<Vec<PrereqTerm>>) -> Seq<char> {
    "\u{26A0} Requires "@ + join(groups.map_values(|g: Vec<PrereqTerm>| group_text(g@)), " or "@)
}

fn lookup_score(scores: &[(String, u8)], code: &String) -> (r: u8)
    ensures
        r == score_of(scores@, code@),
{
    let mut k: usize = 0;
    assert(scores@.skip(0) =~= scores@);
    while k < scores.len()
        invariant
            k <= scores@.len(),
            score_of(scores@, code@) == score_of(scores@.skip(k as int), code@),
        decreases scores@.len() - k,
    {
        proof {
            assert(scores@.skip(k as int)[0] == scores@[k as int]);
            assert(scores@.skip(k as int).drop_first() =~= scores@.skip(k + 1));
        }
        if scores[k].0 == *code {
            return scores[k].1;
        }
        k = k + 1;
    }
    proof {
        assert(scores@.skip(k as int).len() == 0);
    }
    0
}

fn group_is_met(scores: &[(String, u8)], group: &Vec<PrereqTerm>) -> (r: bool)
    ensures
        r == group_met(scores@, group@),
{
    let mut i: usize = 0;
    while i < group.len()
        invariant
            i <= group@.len(),
            forall|j: int| 0 <= j < i ==> score_of(scores@, (#[trigger] group@[j]).ability@) >= group@[j].minimum,
        decreases group@.len() - i,
    {
        if lookup_score(scores, &group[i].ability) < group[i].minimum {
            return false;
        }
        i = i + 1;
    }
    true
}

fn group_label(group: &Vec<PrereqTerm>) -> (r: String)
    ensures
        r@ == group_text(group@),
{
    let mut parts: Vec<String> = Vec::new();
    let mut i: usize = 0;
    while i < group.len()
        invariant
            i <= group@.len(),
            views(parts@) == group@.take(i as int).map_values(|t: PrereqTerm| term_text(t)),
        decreases group@.len() - i,
    {
        let mut s = group[i].label.clone();
        crate::text::push_char(&mut s, ' ');
        push_decimal(&mut s, group[i].minimum as u64);
        proof {
            assert(s@ =~= term_text(group@[i as int]));
        }
        let ghost before = parts@;
        parts.push(s);
        proof {
            assert(group@.take(i + 1).map_values(|t: PrereqTerm| term_text(t)) =~= group@.take(i as int).map_values(
                |t: PrereqTerm| term_text(t),
            ).push(term_text(group@[i as int])));
            assert(views(parts@) =~= views(before).push(s@));
        }
        i = i + 1;
    }
    proof {
        assert(group@.take(group@.len() as int) =~= group@);
    }
    join_strings(&parts, " and ")
}

/// The warning under a class the character can't multiclass into yet:
/// none when prerequisites aren't enforced, the class has none, the
/// character has no class yet, or some alternative is met by the current
/// scores (`scores`: final score per ability code; an unlisted one counts 0).
pub fn unmet_prereq_label(
    groups: &Vec<Vec<PrereqTerm>>,
    scores: &[(String, u8)],
    enforce: bool,
    multiclass_active: bool,
) -> (r: Option<String>)
    ensures
        (!enforce || groups@.len() == 0 || !multiclass_active || prereqs_met(scores@, groups@)) ==> r is None,
        (enforce && groups@.len() > 0 && multiclass_active && !prereqs_met(scores@, groups@)) ==> (r matches Some(s)
            && s@ == warning_text(groups@)),
{
    if !enforce || groups.len() == 0 || !multiclass_active {
        return None;
    }
    let mut g: usize = 0;
    while g < groups.len()
        invariant
            g <= groups@.len(),
            forall|h: int| 0 <= h < g ==> !#[trigger] group_met(scores@, groups@[h]@),
        decreases groups@.len() - g,
    {
        if group_is_met(scores, &groups[g]) {
            return None;
        }
        g = g + 1;
    }
    let mut alternatives: Vec<String> = Vec::new();
    let mut i: usize = 0;
    while i < groups.len()
        invariant
            i <= groups@.len(),
            views(alternatives@) == groups@.take(i as int).map_values(|gr: Vec<PrereqTerm>| group_text(gr@)),
        decreases groups@.len() - i,
    {
        let s = group_label(&groups[i]);
        let ghost before = alternatives@;
        alternatives.push(s);
        proof {
            assert(groups@.take(i + 1).map_values(|gr: Vec<PrereqTerm>| group_text(gr@)) =~= groups@.take(
                i as int,
            ).map_values(|gr: Vec<PrereqTerm>| group_text(gr@)).push(group_text(groups@[i as int]@)));
            assert(views(alternatives@) =~= views(before).push(s@));
        }
        i = i + 1;
    }
    proof {
        assert(groups@.take(groups@.len() as int) =~= groups@);
    }
    let mut out = String::new();
    push_str(&mut out, "\u{26A0} Requires ");
    let joined = join_strings(&alternatives, " or ");
    push_str(&mut out, joined.as_str());
    Some(out)
}

/// The note shown while a class's subclass choice is still locked.
pub fn subclass_unlock_note(title: &String, unlock: u8) -> (r: String)
    ensures
        r@ == title@ + " unlocks at level "@ + decimal(unlock as nat) + seq!['.'],
{
    let mut s = title.clone();
    push_str(&mut s, " unlocks at level ");
    push_decimal(&mut s, unlock as u64);
    crate::text::push_char(&mut s, '.');
    s
}

} // verus!
