//! Ability Score Improvement slots: what each was spent on, and the edits
//! the Feats & ASIs step makes to them.
use vstd::prelude::*;
use crate::progress::{blank, is_blank};
use crate::text::push_str;
use crate::validation::{is_ability_code, is_ability_code_spec};

verus! {

/// What one Ability Score Improvement slot was spent on.
pub enum AsiChoice {
    /// +1 to each of two abilities (the same code twice for +2).
    Abilities { codes: Vec<String> },
    /// A feat instead.
    Feat { feat_id: String },
}

/// An ASI slot is filled: a feat with a non-blank id, or two ability codes.
pub open spec fn asi_filled(choice: Option<AsiChoice>) -> bool {
    match choice {
        Some(AsiChoice::Feat { feat_id }) => !blank(feat_id@),
        Some(AsiChoice::Abilities { codes }) => codes@.len() == 2 && forall|i: int|
            0 <= i < 2 ==> is_ability_code_spec((#[trigger] codes@[i])@),
        None => false,
    }
}

pub(crate) fn asi_choice_filled(choice: &Option<AsiChoice>) -> (r: bool)
    ensures
        r == asi_filled(*choice),
{
    match choice {
        Some(AsiChoice::Feat { feat_id }) => !is_blank(feat_id.as_str()),
        Some(AsiChoice::Abilities { codes }) => {
            codes.len() == 2 && is_ability_code(&codes[0]) && is_ability_code(&codes[1])
        },
        None => false,
    }
}

/// The choice after picking a kind in a slot's kind menu: two `str`
/// increases for `"abilities"`, a feat not yet picked for `"feat"`, else
/// unspent.
pub fn choice_for_kind(kind: &str) -> (r: Option<AsiChoice>)
    ensures
        kind@ == "abilities"@ ==> (r matches Some(AsiChoice::Abilities { codes }) && codes@.map_values(|c: String| c@)
            == seq!["str"@, "str"@]),
        kind@ == "feat"@ ==> (r matches Some(AsiChoice::Feat { feat_id }) && feat_id@.len() == 0),
        kind@ != "abilities"@ && kind@ != "feat"@ ==> r is None,
{
    proof {
        reveal_strlit("abilities");
        reveal_strlit("feat");
        assert("feat"@.len() == 4);
        assert("abilities"@.len() == 9);
    }
    if String::from_str(kind) == String::from_str("abilities") {
        Some(AsiChoice::Abilities { codes: two_strs() })
    } else if String::from_str(kind) == String::from_str("feat") {
        Some(AsiChoice::Feat { feat_id: String::new() })
    } else {
        None
    }
}

fn str_code() -> (r: String)
    ensures
        r@ == "str"@,
{
    let mut s = String::new();
    push_str(&mut s, "str");
    s
}

fn two_strs() -> (r: Vec<String>)
    ensures
        r@.map_values(|c: String| c@) == seq!["str"@, "str"@],
{
    let mut v: Vec<String> = Vec::new();
    v.push(str_code());
    v.push(str_code());
    proof {
        assert(v@.map_values(|c: String| c@) =~= seq!["str"@, "str"@]);
    }
    v
}

/// The two increases after choosing `code` in `position`: the slot's current
/// increases (two `str` when it isn't spent on increases), padded or cut to
/// two with `str`, with that position replaced.
pub open spec fn increases_after(choice: Option<AsiChoice>, position: int, code: Seq<char>) -> Seq<Seq<char>> {
    let codes = match choice {
        Some(AsiChoice::Abilities { codes }) => codes@.map_values(|c: String| c@),
        _ => seq!["str"@, "str"@],
    };
    let first = if codes.len() > 0 { codes[0] } else { "str"@ };
    let second = if codes.len() > 1 { codes[1] } else { "str"@ };
    if position == 0 {
        seq![code, second]
    } else {
        seq![first, code]
    }
}

/// Choosing one of a slot's two ability increases (`position` 0 or 1).
pub fn choose_increase(choice: &Option<AsiChoice>, position: usize, code: String) -> (r: AsiChoice)
    requires
        position < 2,
    ensures
        r matches AsiChoice::Abilities { codes } && codes@.map_values(|c: String| c@) == increases_after(
            *choice,
            position as int,
            code@,
        ),
{
    let (first, second) = match choice {
        Some(AsiChoice::Abilities { codes }) => {
            let a = if codes.len() > 0 { codes[0].clone() } else { str_code() };
            let b = if codes.len() > 1 { codes[1].clone() } else { str_code() };
            (a, b)
        },
        _ => (str_code(), str_code()),
    };
    let mut v: Vec<String> = Vec::new();
    if position == 0 {
        v.push(code);
        v.push(second);
    } else {
        v.push(first);
        v.push(code);
    }
    proof {
        assert(v@.map_values(|c: String| c@) =~= increases_after(*choice, position as int, code@));
    }
    AsiChoice::Abilities { codes: v }
}

/// Stores a slot's new choice; a slot past the end of the list is ignored.
pub fn set_slot_choice(choices: &mut Vec<Option<AsiChoice>>, slot: usize, value: Option<AsiChoice>)
    ensures
        slot < old(choices)@.len() ==> final(choices)@ == old(choices)@.update(slot as int, value),
        slot >= old(choices)@.len() ==> final(choices)@ == old(choices)@,
{
    if slot < choices.len() {
        choices.set(slot, value);
    }
}

} // verus!
