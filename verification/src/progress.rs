//! Whether each step of the character builder has all its choices made.
use vstd::prelude::*;
use crate::asi::{asi_choice_filled, asi_filled, AsiChoice};
use crate::matching::{matches_total, total_required};
use crate::picks::{all_filled, filled};
use crate::validation::{chosen_in, count_eligible, slot_required, AbilityBonusSource, FeatureSlot};

verus! {

/// The characters with the Unicode `White_Space` property.
pub open spec fn white_space(c: char) -> bool {
    let u = c as int;
    (0x9 <= u <= 0xD) || u == 0x20 || u == 0x85 || u == 0xA0 || u == 0x1680 || (0x2000 <= u <= 0x200A) || u
        == 0x2028 || u == 0x2029 || u == 0x202F || u == 0x205F || u == 0x3000
}

/// Whether `c` has the Unicode `White_Space` property (what
/// `char::is_whitespace` tests).
fn char_is_whitespace(c: char) -> (r: bool)
    ensures
        r == white_space(c),
{
    let u = c as u32;
    (0x9 <= u && u <= 0xD) || u == 0x20 || u == 0x85 || u == 0xA0 || u == 0x1680 || (0x2000 <= u && u <= 0x200A)
        || u == 0x2028 || u == 0x2029 || u == 0x202F || u == 0x205F || u == 0x3000
}

/// Nothing but whitespace (what trims to an empty string).
pub open spec fn blank(s: Seq<char>) -> bool {
    forall|i: int| 0 <= i < s.len() ==> white_space(#[trigger] s[i])
}

/// Whether `s` is empty once trimmed.
pub fn is_blank(s: &str) -> (r: bool)
    ensures
        r == blank(s@),
{
    let n = s.unicode_len();
    let mut i: usize = 0;
    while i < n
        invariant
            i <= n,
            n == s@.len(),
            forall|j: int| 0 <= j < i ==> white_space(#[trigger] s@[j]),
        decreases n - i,
    {
        if !char_is_whitespace(s.get_char(i)) {
            return false;
        }
        i = i + 1;
    }
    true
}

/// `t` is `s` without its leading and trailing whitespace (what `str::trim`
/// gives): the stretch from the first character that is not whitespace to the
/// last one, or nothing when `s` is blank.
pub open spec fn trims_to(s: Seq<char>, t: Seq<char>) -> bool {
    exists|a: int, b: int|
        #![trigger s.subrange(a, b)]
        {
            &&& 0 <= a <= b <= s.len()
            &&& t == s.subrange(a, b)
            &&& forall|i: int| 0 <= i < a ==> white_space(#[trigger] s[i])
            &&& forall|i: int| b <= i < s.len() ==> white_space(#[trigger] s[i])
            &&& a < b ==> !white_space(s[a]) && !white_space(s[b - 1])
        }
}

/// `s` with leading and trailing whitespace removed, as a character's name
/// is saved.
pub fn trimmed(s: &str) -> (r: String)
    ensures
        trims_to(s@, r@),
{
    let n = s.unicode_len();
    let mut a: usize = 0;
    while a < n
        invariant
            a <= n,
            n == s@.len(),
            forall|i: int| 0 <= i < a ==> white_space(#[trigger] s@[i]),
        ensures
            a <= n,
            forall|i: int| 0 <= i < a ==> white_space(#[trigger] s@[i]),
            a < n ==> !white_space(s@[a as int]),
        decreases n - a,
    {
        if !char_is_whitespace(s.get_char(a)) {
            break;
        }
        a = a + 1;
    }
    let mut b: usize = n;
    while b > a
        invariant
            a <= b <= n,
            n == s@.len(),
            forall|i: int| b <= i < n ==> white_space(#[trigger] s@[i]),
        ensures
            a <= b <= n,
            forall|i: int| b <= i < n ==> white_space(#[trigger] s@[i]),
            a < b ==> !white_space(s@[b - 1]),
        decreases b,
    {
        if !char_is_whitespace(s.get_char(b - 1)) {
            break;
        }
        b = b - 1;
    }
    let r = String::from_str(s.substring_char(a, b));
    proof {
        assert(r@ == s@.subrange(a as int, b as int));
    }
    r
}

/// One added class as the Class step sees it.
pub struct ClassProgress {
    /// The class's subclass choice has unlocked at its level.
    pub subclass_unlocked: bool,
    /// A subclass is selected for it.
    pub subclass_chosen: bool,
}

/// Everything the steps' completeness depends on.
pub struct StepState {
    pub name: String,
    pub classes: Vec<ClassProgress>,
    pub feature_slots: Vec<FeatureSlot>,
    pub optional_feature_choices: Vec<String>,
    pub species_chosen: bool,
    pub background_chosen: bool,
    pub skill_choices: Vec<Option<String>>,
    pub skill_slots: usize,
    pub expertise_choices: Vec<Option<String>>,
    pub expertise_slots: usize,
    pub language_choices: Vec<Option<String>>,
    pub language_slots: usize,
    pub tool_choices: Vec<Option<String>>,
    pub tool_slots: usize,
    /// Base scores are entered by point buy.
    pub point_buy: bool,
    pub point_buy_spent: u32,
    pub point_buy_budget: u32,
    pub bonus_source: AbilityBonusSource,
    /// Picks the species' choose grant asks for (0 without one).
    pub species_choice_count: usize,
    pub species_ability_choices: Vec<String>,
    pub custom_ability_choices: Vec<String>,
    pub cantrips_chosen: usize,
    /// Each caster class's required cantrips.
    pub cantrips_required: Vec<usize>,
    pub spells_chosen: usize,
    /// Each caster class's required spells.
    pub spells_required: Vec<usize>,
    pub spell_grant_choices: Vec<Option<String>>,
    pub spell_grant_slots: usize,
    pub asi_choices: Vec<Option<AsiChoice>>,
    pub asi_slots: usize,
}

/// Step `n` has all its choices made: a non-blank name (0); at least one
/// class, each with a subclass once its choice unlocked (1); each optional
/// feature slot's eligible picks matching its required count (2); a species
/// (3) and a background (4); every skill and expertise slot (5), language
/// slot (6) and tool slot (7) filled; point buy within budget and the bonus
/// picks complete (8); cantrip and spell counts matching the classes' totals
/// and every subclass spell slot filled (9); every ASI slot filled (10).
pub open spec fn step_done(n: int, st: StepState) -> bool {
    if n == 0 {
        !blank(st.name@)
    } else if n == 1 {
        st.classes@.len() > 0 && forall|k: int|
            0 <= k < st.classes@.len() && (#[trigger] st.classes@[k]).subclass_unlocked ==> st.classes@[k].subclass_chosen
    } else if n == 2 {
        forall|s: int|
            0 <= s < st.feature_slots@.len() ==> chosen_in(
                st.optional_feature_choices@,
                (#[trigger] st.feature_slots@[s]).eligible_ids@,
            ) == slot_required(st.feature_slots@[s])
    } else if n == 3 {
        st.species_chosen
    } else if n == 4 {
        st.background_chosen
    } else if n == 5 {
        filled(st.skill_choices@, st.skill_slots as nat) && filled(st.expertise_choices@, st.expertise_slots as nat)
    } else if n == 6 {
        filled(st.language_choices@, st.language_slots as nat)
    } else if n == 7 {
        filled(st.tool_choices@, st.tool_slots as nat)
    } else if n == 8 {
        (!st.point_buy || st.point_buy_spent <= st.point_buy_budget) && match st.bonus_source {
            AbilityBonusSource::Species => st.species_ability_choices@.len() == st.species_choice_count,
            AbilityBonusSource::Custom => st.custom_ability_choices@.len() == 2 && st.custom_ability_choices@[0]@
                != st.custom_ability_choices@[1]@,
        }
    } else if n == 9 {
        st.cantrips_chosen == total_required(st.cantrips_required@) && st.spells_chosen == total_required(
            st.spells_required@,
        ) && filled(st.spell_grant_choices@, st.spell_grant_slots as nat)
    } else if n == 10 {
        st.asi_choices@.len() == st.asi_slots && forall|i: int|
            0 <= i < st.asi_choices@.len() ==> #[trigger] asi_filled(st.asi_choices@[i])
    } else {
        true
    }
}

fn classes_complete(classes: &Vec<ClassProgress>) -> (r: bool)
    ensures
        r == (classes@.len() > 0 && forall|k: int|
            0 <= k < classes@.len() && (#[trigger] classes@[k]).subclass_unlocked ==> classes@[k].subclass_chosen),
{
    if classes.len() == 0 {
        return false;
    }
    let mut k: usize = 0;
    while k < classes.len()
        invariant
            k <= classes@.len(),
            forall|j: int| 0 <= j < k && (#[trigger] classes@[j]).subclass_unlocked ==> classes@[j].subclass_chosen,
        decreases classes@.len() - k,
    {
        if classes[k].subclass_unlocked && !classes[k].subclass_chosen {
            return false;
        }
        k = k + 1;
    }
    true
}

fn feature_slots_complete(slots: &Vec<FeatureSlot>, choices: &Vec<String>) -> (r: bool)
    ensures
        r == forall|s: int|
            0 <= s < slots@.len() ==> chosen_in(choices@, (#[trigger] slots@[s]).eligible_ids@) == slot_required(
                slots@[s],
            ),
{
    let mut s: usize = 0;
    while s < slots.len()
        invariant
            s <= slots@.len(),
            forall|t: int|
                0 <= t < s ==> chosen_in(choices@, (#[trigger] slots@[t]).eligible_ids@) == slot_required(slots@[t]),
        decreases slots@.len() - s,
    {
        let slot = &slots[s];
        let required = if slot.quota < slot.eligible_ids.len() { slot.quota } else { slot.eligible_ids.len() };
        if count_eligible(choices.as_slice(), &slot.eligible_ids) != required {
            return false;
        }
        s = s + 1;
    }
    true
}

fn asi_complete(choices: &Vec<Option<AsiChoice>>, slots: usize) -> (r: bool)
    ensures
        r == (choices@.len() == slots && forall|i: int| 0 <= i < choices@.len() ==> #[trigger] asi_filled(choices@[i])),
{
    if choices.len() != slots {
        return false;
    }
    let mut i: usize = 0;
    while i < choices.len()
        invariant
            i <= choices@.len(),
            forall|j: int| 0 <= j < i ==> #[trigger] asi_filled(choices@[j]),
        decreases choices@.len() - i,
    {
        if !asi_choice_filled(&choices[i]) {
            return false;
        }
        i = i + 1;
    }
    true
}

/// Whether step `n`'s choices are complete, as the Review checklist and the
/// step tabs show it.
pub fn step_complete(n: usize, st: &StepState) -> (r: bool)
    ensures
        r == step_done(n as int, *st),
{
    if n == 0 {
        !is_blank(st.name.as_str())
    } else if n == 1 {
        classes_complete(&st.classes)
    } else if n == 2 {
        feature_slots_complete(&st.feature_slots, &st.optional_feature_choices)
    } else if n == 3 {
        st.species_chosen
    } else if n == 4 {
        st.background_chosen
    } else if n == 5 {
        all_filled(st.skill_choices.as_slice(), st.skill_slots) && all_filled(
            st.expertise_choices.as_slice(),
            st.expertise_slots,
        )
    } else if n == 6 {
        all_filled(st.language_choices.as_slice(), st.language_slots)
    } else if n == 7 {
        all_filled(st.tool_choices.as_slice(), st.tool_slots)
    } else if n == 8 {
        let method_ok = !st.point_buy || st.point_buy_spent <= st.point_buy_budget;
        let bonus_ok = match st.bonus_source {
            AbilityBonusSource::Species => st.species_ability_choices.len() == st.species_choice_count,
            AbilityBonusSource::Custom => st.custom_ability_choices.len() == 2 && !(st.custom_ability_choices[0]
                == st.custom_ability_choices[1]),
        };
        method_ok && bonus_ok
    } else if n == 9 {
        matches_total(st.cantrips_chosen, st.cantrips_required.as_slice()) && matches_total(
            st.spells_chosen,
            st.spells_required.as_slice(),
        ) && all_filled(st.spell_grant_choices.as_slice(), st.spell_grant_slots)
    } else if n == 10 {
        asi_complete(&st.asi_choices, st.asi_slots)
    } else {
        true
    }
}

/// The Class step needs a subclass for every class whose subclass choice has
/// unlocked: any one such class without a subclass, wherever it stands in the
/// list, leaves the step incomplete.
pub proof fn lemma_class_step_needs_every_unlocked_subclass(st: StepState, k: int)
    requires
        0 <= k < st.classes@.len(),
        st.classes@[k].subclass_unlocked,
        !st.classes@[k].subclass_chosen,
    ensures
        !step_done(1, st),
{
}

/// The Class step is complete once there is a class and every class whose
/// subclass choice has unlocked has a subclass.
pub proof fn lemma_class_step_complete_when_all_chosen(st: StepState)
    requires
        st.classes@.len() > 0,
        forall|k: int| 0 <= k < st.classes@.len() && (#[trigger] st.classes@[k]).subclass_unlocked ==> st.classes@[k].subclass_chosen,
    ensures
        step_done(1, st),
{
}

/// Adding a class whose subclass choice is still locked never changes
/// whether a non-empty class list completes the Class step.
pub proof fn lemma_class_step_ignores_locked_class(st: StepState, more: StepState, c: ClassProgress)
    requires
        st.classes@.len() > 0,
        more.classes@ == st.classes@.push(c),
        !c.subclass_unlocked,
    ensures
        step_done(1, more) == step_done(1, st),
{
    if step_done(1, st) {
        assert forall|k: int| 0 <= k < more.classes@.len() && (#[trigger] more.classes@[k]).subclass_unlocked implies more.classes@[k].subclass_chosen by {
            assert(k < st.classes@.len());
            assert(more.classes@[k] == st.classes@[k]);
        }
    }
    if step_done(1, more) {
        assert forall|k: int| 0 <= k < st.classes@.len() && (#[trigger] st.classes@[k]).subclass_unlocked implies st.classes@[k].subclass_chosen by {
            assert(more.classes@[k] == st.classes@[k]);
        }
    }
}

} // verus!
