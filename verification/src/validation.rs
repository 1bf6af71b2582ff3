//! Server-side re-validation of a submitted character's choices against what
//! its classes, background and species actually unlock.
use vstd::prelude::*;
use crate::counting::{count_idx, sum_idx};
use crate::matching::{attribute_multiclass_choices, attribution_exists, pool_contains, pool_has, total_required};
use crate::species::AbilityBonusGrant;

verus! {

// ---------------------------------------------------------------------------
// Ability codes
// ---------------------------------------------------------------------------

/// The six ability codes, in sheet order.
pub open spec fn ability_codes() -> Seq<Seq<char>> {
    seq!["str"@, "dex"@, "con"@, "int"@, "wis"@, "cha"@]
}

/// `code` is one of the six ability codes.
pub open spec fn is_ability_code_spec(code: Seq<char>) -> bool {
    ability_codes().contains(code)
}

/// Whether `code` names an ability.
pub fn is_ability_code(code: &String) -> (r: bool)
    ensures
        r == is_ability_code_spec(code@),
{
    let codes = ["str", "dex", "con", "int", "wis", "cha"];
    let ghost all = ability_codes();
    let mut i: usize = 0;
    while i < 6
        invariant
            i <= 6,
            all == ability_codes(),
            forall|j: int| 0 <= j < 6 ==> (#[trigger] codes@[j])@ == all[j],
            forall|j: int| 0 <= j < i ==> all[j] != code@,
        decreases 6 - i,
    {
        if String::from_str(codes[i]) == *code {
            assert(all[i as int] == code@);
            return true;
        }
        i = i + 1;
    }
    assert(!all.contains(code@));
    false
}

// ---------------------------------------------------------------------------
// Slot-by-slot choices
// ---------------------------------------------------------------------------

/// One choice per slot, each listed in its own slot's options.
pub open spec fn fits_pools(choices: Seq<String>, pools: Seq<Vec<String>>) -> bool {
    choices.len() == pools.len() && forall|i: int| 0 <= i < choices.len() ==> #[trigger] pool_has(
        pools[i]@,
        choices[i],
    )
}

/// Whether the submitted skill (or tool, or language) picks fill the
/// unlocked choice slots exactly, each with one of that slot's options.
pub fn choices_fit_pools(choices: &[String], pools: &[Vec<String>]) -> (r: bool)
    ensures
        r == fits_pools(choices@, pools@),
{
    if choices.len() != pools.len() {
        return false;
    }
    let mut i: usize = 0;
    while i < choices.len()
        invariant
            i <= choices@.len(),
            choices@.len() == pools@.len(),
            forall|j: int| 0 <= j < i ==> #[trigger] pool_has(pools@[j]@, choices@[j]),
        decreases choices@.len() - i,
    {
        if !pool_contains(&pools[i], &choices[i]) {
            return false;
        }
        i = i + 1;
    }
    true
}

/// Whether `s` is listed in any of three lists.
pub open spec fn in_any(a: Seq<String>, b: Seq<String>, c: Seq<String>, s: String) -> bool {
    pool_has(a, s) || pool_has(b, s) || pool_has(c, s)
}

fn list_contains(list: &[String], s: &String) -> (r: bool)
    ensures
        r == pool_has(list@, *s),
{
    let mut j: usize = 0;
    while j < list.len()
        invariant
            j <= list@.len(),
            forall|k: int| 0 <= k < j ==> list@[k]@ != s@,
        decreases list@.len() - j,
    {
        if list[j] == *s {
            assert(list@[j as int]@ == s@);
            return true;
        }
        j = j + 1;
    }
    false
}

/// Whether exactly `needed` expertise picks were made, each naming a skill the
/// character is proficient in (fixed grant, chosen skill, or custom skill).
pub fn expertise_valid(
    expertise: &[String],
    needed: usize,
    fixed: &[String],
    skill_choices: &[String],
    custom: &[String],
) -> (r: bool)
    ensures
        r == (expertise@.len() == needed && forall|i: int|
            0 <= i < expertise@.len() ==> #[trigger] in_any(fixed@, skill_choices@, custom@, expertise@[i])),
{
    if expertise.len() != needed {
        return false;
    }
    let mut i: usize = 0;
    while i < expertise.len()
        invariant
            i <= expertise@.len(),
            forall|j: int| 0 <= j < i ==> #[trigger] in_any(fixed@, skill_choices@, custom@, expertise@[j]),
        decreases expertise@.len() - i,
    {
        let e = &expertise[i];
        if !(list_contains(fixed, e) || list_contains(skill_choices, e) || list_contains(custom, e)) {
            assert(!in_any(fixed@, skill_choices@, custom@, expertise@[i as int]));
            return false;
        }
        i = i + 1;
    }
    true
}

/// Subclass spell picks: one per slot, from that slot's options, no spell
/// twice, and none already picked as a cantrip or spell.
pub open spec fn spell_grants_ok(
    grants: Seq<String>,
    slots: Seq<Vec<String>>,
    cantrips: Seq<String>,
    spells: Seq<String>,
) -> bool {
    &&& fits_pools(grants, slots)
    &&& forall|i: int, j: int| 0 <= i < j < grants.len() ==> (#[trigger] grants[i])@ != (#[trigger] grants[j])@
    &&& forall|i: int| 0 <= i < grants.len() ==> #[trigger] not_picked(cantrips, spells, grants[i])
}

/// `s` is neither a picked cantrip nor a picked spell.
pub open spec fn not_picked(cantrips: Seq<String>, spells: Seq<String>, s: String) -> bool {
    !pool_has(cantrips, s) && !pool_has(spells, s)
}

/// Whether `items[i]` equals an earlier item.
fn repeats_earlier(items: &[String], i: usize) -> (r: bool)
    requires
        i < items@.len(),
    ensures
        r == exists|a: int| 0 <= a < i && (#[trigger] items@[a])@ == items@[i as int]@,
{
    let mut j: usize = 0;
    while j < i
        invariant
            j <= i,
            i < items@.len(),
            forall|a: int| 0 <= a < j ==> (#[trigger] items@[a])@ != items@[i as int]@,
        decreases i - j,
    {
        if items[j] == items[i] {
            return true;
        }
        j = j + 1;
    }
    false
}

/// Whether the subclass spell picks are valid.
pub fn spell_grant_choices_valid(grants: &[String], slots: &[Vec<String>], cantrips: &[String], spells: &[String]) -> (r:
    bool)
    ensures
        r == spell_grants_ok(grants@, slots@, cantrips@, spells@),
{
    if !choices_fit_pools(grants, slots) {
        return false;
    }
    let mut i: usize = 0;
    while i < grants.len()
        invariant
            i <= grants@.len(),
            fits_pools(grants@, slots@),
            forall|a: int, b: int| 0 <= a < b < i ==> (#[trigger] grants@[a])@ != (#[trigger] grants@[b])@,
            forall|a: int| 0 <= a < i ==> #[trigger] not_picked(cantrips@, spells@, grants@[a]),
        decreases grants@.len() - i,
    {
        let g = &grants[i];
        if repeats_earlier(grants, i) {
            return false;
        }
        assert(*g == grants@[i as int]);
        if list_contains(cantrips, g) || list_contains(spells, g) {
            assert(!not_picked(cantrips@, spells@, grants@[i as int]));
            return false;
        }
        assert(not_picked(cantrips@, spells@, grants@[i as int]));
        i = i + 1;
    }
    true
}

// ---------------------------------------------------------------------------
// Ability bonuses
// ---------------------------------------------------------------------------

/// Where a character's +2/+1 style ability bonus comes from.
#[derive(PartialEq, Eq, Structural, Clone, Copy)]
pub enum AbilityBonusSource {
    Species,
    Custom,
}

/// The first choose-your-abilities grant among a species' bonuses: its count
/// and the abilities it allows.
pub open spec fn first_choose(grants: Seq<AbilityBonusGrant>) -> Option<(u8, Seq<String>)>
    decreases grants.len(),
{
    if grants.len() == 0 {
        None
    } else {
        match grants[0] {
            AbilityBonusGrant::Choose { count, amount: _, from } => Some((count, from@)),
            AbilityBonusGrant::Fixed { .. } => first_choose(grants.drop_first()),
        }
    }
}

fn find_choose(grants: &[AbilityBonusGrant]) -> (r: Option<(u8, &Vec<String>)>)
    ensures
        match first_choose(grants@) {
            Some((c, f)) => match r {
                Some((rc, rf)) => rc == c && rf@ == f,
                None => false,
            },
            None => r is None,
        },
{
    let mut i: usize = 0;
    assert(grants@.skip(0) =~= grants@);
    while i < grants.len()
        invariant
            i <= grants@.len(),
            first_choose(grants@) == first_choose(grants@.skip(i as int)),
        decreases grants@.len() - i,
    {
        proof {
            assert(grants@.skip(i as int).drop_first() =~= grants@.skip(i + 1));
            assert(grants@.skip(i as int)[0] == grants@[i as int]);
        }
        match &grants[i] {
            AbilityBonusGrant::Choose { count, amount: _, from } => {
                return Some((*count, from));
            },
            AbilityBonusGrant::Fixed { .. } => {},
        }
        i = i + 1;
    }
    None
}

/// The submitted ability-bonus picks match what is on offer: with the species
/// as the source, no custom picks and, if the species has a choose grant,
/// exactly its count of valid codes each allowed by it (`free_choice`: the
/// grant allows any ability), else no species picks; with a custom bonus, no
/// species picks and exactly two different valid codes.
pub open spec fn ability_bonus_ok(
    source: AbilityBonusSource,
    grants: Seq<AbilityBonusGrant>,
    free_choice: bool,
    species_choices: Seq<String>,
    custom_choices: Seq<String>,
) -> bool {
    match source {
        AbilityBonusSource::Species => custom_choices.len() == 0 && match first_choose(grants) {
            Some((count, from)) => species_choices.len() == count as nat && forall|i: int|
                0 <= i < species_choices.len() ==> is_ability_code_spec((#[trigger] species_choices[i])@) && (
                free_choice || pool_has(from, species_choices[i])),
            None => species_choices.len() == 0,
        },
        AbilityBonusSource::Custom => {
            &&& species_choices.len() == 0
            &&& custom_choices.len() == 2
            &&& forall|i: int| 0 <= i < 2 ==> is_ability_code_spec((#[trigger] custom_choices[i])@)
            &&& custom_choices[0]@ != custom_choices[1]@
        },
    }
}

/// Whether the submitted ability-bonus picks are valid.
pub fn ability_bonus_valid(
    source: AbilityBonusSource,
    grants: &[AbilityBonusGrant],
    free_choice: bool,
    species_choices: &[String],
    custom_choices: &[String],
) -> (r: bool)
    ensures
        r == ability_bonus_ok(source, grants@, free_choice, species_choices@, custom_choices@),
{
    match source {
        AbilityBonusSource::Species => {
            if custom_choices.len() != 0 {
                return false;
            }
            match find_choose(grants) {
                Some((count, from)) => {
                    if species_choices.len() != count as usize {
                        return false;
                    }
                    let mut i: usize = 0;
                    while i < species_choices.len()
                        invariant
                            i <= species_choices@.len(),
                            species_choices@.len() == count as nat,
                            source == AbilityBonusSource::Species,
                            custom_choices@.len() == 0,
                            first_choose(grants@) == Some((count, from@)),
                            forall|j: int|
                                0 <= j < i ==> is_ability_code_spec((#[trigger] species_choices@[j])@) && (free_choice
                                    || pool_has(from@, species_choices@[j])),
                        decreases species_choices@.len() - i,
                    {
                        let c = &species_choices[i];
                        if !is_ability_code(c) {
                            assert(!is_ability_code_spec(species_choices@[i as int]@));
                            return false;
                        }
                        if !free_choice && !pool_contains(from, c) {
                            assert(!pool_has(from@, species_choices@[i as int]));
                            return false;
                        }
                        i = i + 1;
                    }
                    true
                },
                None => species_choices.len() == 0,
            }
        },
        AbilityBonusSource::Custom => {
            if species_choices.len() != 0 || custom_choices.len() != 2 {
                return false;
            }
            let a = is_ability_code(&custom_choices[0]);
            let b = is_ability_code(&custom_choices[1]);
            let same = custom_choices[0] == custom_choices[1];
            proof {
                if a && b {
                    assert forall|i: int| 0 <= i < 2 implies is_ability_code_spec((#[trigger] custom_choices@[i])@) by {
                        if i == 0 {
                        } else {
                        }
                    }
                }
            }
            a && b && !same
        },
    }
}

// ---------------------------------------------------------------------------
// Rolled hit points
// ---------------------------------------------------------------------------

/// Levels of class `index` that are rolled: all but the primary class's first.
pub open spec fn rolled_levels(index: int, level: u8) -> nat {
    if index == 0 {
        if level == 0 { 0 } else { (level - 1) as nat }
    } else {
        level as nat
    }
}

/// The hit die of each rolled level, class by class in list order (the
/// primary class's first level is never rolled).
pub open spec fn roll_dice_spec(levels: Seq<u8>, dice: Seq<u8>) -> Seq<u8>
    decreases levels.len(),
{
    if levels.len() == 0 {
        seq![]
    } else {
        let last = levels.len() - 1;
        roll_dice_spec(levels.drop_last(), dice) + Seq::new(rolled_levels(last, levels[last]), |k: int| dice[last])
    }
}

/// Hit die of each HP roll slot: `levels[i]` and `dice[i]` are class `i`'s
/// level and hit die.
pub fn roll_hit_dice(levels: &[u8], dice: &[u8]) -> (r: Vec<u8>)
    requires
        levels@.len() == dice@.len(),
    ensures
        r@ == roll_dice_spec(levels@, dice@),
{
    let mut r: Vec<u8> = Vec::new();
    let mut i: usize = 0;
    while i < levels.len()
        invariant
            i <= levels@.len(),
            levels@.len() == dice@.len(),
            r@ == roll_dice_spec(levels@.take(i as int), dice@),
        decreases levels@.len() - i,
    {
        let n: u8 = if i == 0 {
            if levels[i] == 0 { 0 } else { levels[i] - 1 }
        } else {
            levels[i]
        };
        let ghost before = r@;
        let mut k: u8 = 0;
        while k < n
            invariant
                k <= n,
                i < levels@.len(),
                levels@.len() == dice@.len(),
                r@ == before + Seq::new(k as nat, |m: int| dice@[i as int]),
            decreases n - k,
        {
            r.push(dice[i]);
            proof {
                assert(r@ =~= before + Seq::new((k + 1) as nat, |m: int| dice@[i as int]));
            }
            k = k + 1;
        }
        proof {
            assert(levels@.take(i + 1).drop_last() =~= levels@.take(i as int));
            assert(r@ =~= roll_dice_spec(levels@.take(i + 1), dice@));
        }
        i = i + 1;
    }
    proof {
        assert(levels@.take(levels@.len() as int) =~= levels@);
    }
    r
}

/// Roll `j` lies within its slot's hit die.
pub open spec fn roll_ok(rolls: Seq<u8>, dice: Seq<u8>, j: int) -> bool {
    1 <= rolls[j] <= dice[j]
}

/// The hit die of the first rolled level whose roll is outside `1..=die`, if
/// any; rolls and slots are paired up to the shorter of the two.
pub fn check_hp_rolls(rolls: &[u8], dice: &[u8]) -> (r: Option<u8>)
    ensures
        r is None <==> forall|j: int| 0 <= j < rolls@.len() && j < dice@.len() ==> #[trigger] roll_ok(rolls@, dice@, j),
        r matches Some(d) ==> exists|j: int|
            0 <= j < rolls@.len() && j < dice@.len() && !#[trigger] roll_ok(rolls@, dice@, j) && d == dice@[j]
                && forall|k: int| 0 <= k < j ==> #[trigger] roll_ok(rolls@, dice@, k),
{
    let mut j: usize = 0;
    while j < rolls.len() && j < dice.len()
        invariant
            j <= rolls@.len(),
            j <= dice@.len(),
            forall|k: int| 0 <= k < j ==> #[trigger] roll_ok(rolls@, dice@, k),
        decreases rolls@.len() - j,
    {
        if rolls[j] < 1 || rolls[j] > dice[j] {
            assert(!roll_ok(rolls@, dice@, j as int));
            return Some(dice[j]);
        }
        j = j + 1;
    }
    None
}

// ---------------------------------------------------------------------------
// Optional features
// ---------------------------------------------------------------------------

/// One (class, feature type) slot: the ids eligible for it and the class's
/// quota of picks of that type.
pub struct FeatureSlot {
    pub eligible_ids: Vec<String>,
    pub quota: usize,
}

/// Picks a slot requires: its quota, capped by how many features are eligible.
pub open spec fn slot_required(slot: FeatureSlot) -> nat {
    if slot.quota < slot.eligible_ids@.len() { slot.quota as nat } else { slot.eligible_ids@.len() }
}

/// Indicator of the picks eligible for a slot.
pub open spec fn eligible_pick(choices: Seq<String>, eligible: Seq<String>) -> spec_fn(int) -> bool {
    |c: int| pool_has(eligible, choices[c])
}

/// Number of picks eligible for a slot.
pub open spec fn chosen_in(choices: Seq<String>, eligible: Seq<String>) -> nat {
    count_idx(choices.len() as int, eligible_pick(choices, eligible))
}

/// Required picks of each slot, as a summand.
pub open spec fn required_of(slots: Seq<FeatureSlot>) -> spec_fn(int) -> int {
    |s: int| slot_required(slots[s]) as int
}

/// Optional-feature picks are valid: each slot's eligible picks number exactly
/// its required count, the picks number the sum of those counts, and every
/// pick is eligible somewhere.
pub open spec fn feature_choices_ok(choices: Seq<String>, slots: Seq<FeatureSlot>) -> bool {
    &&& forall|s: int| 0 <= s < slots.len() ==> chosen_in(choices, (#[trigger] slots[s]).eligible_ids@) == slot_required(
        slots[s],
    )
    &&& choices.len() == sum_idx(slots.len() as int, required_of(slots))
    &&& forall|c: int| 0 <= c < choices.len() ==> #[trigger] eligible_somewhere(slots, choices[c])
}

/// Some slot lists `id` as eligible.
pub open spec fn eligible_somewhere(slots: Seq<FeatureSlot>, id: String) -> bool {
    exists|s: int| 0 <= s < slots.len() && #[trigger] pool_has(slots[s].eligible_ids@, id)
}

pub(crate) fn count_eligible(choices: &[String], eligible: &Vec<String>) -> (r: usize)
    ensures
        r == chosen_in(choices@, eligible@),
{
    let mut n: usize = 0;
    let mut c: usize = 0;
    while c < choices.len()
        invariant
            c <= choices@.len(),
            n == count_idx(c as int, eligible_pick(choices@, eligible@)),
            n <= c,
        decreases choices@.len() - c,
    {
        if pool_contains(eligible, &choices[c]) {
            n = n + 1;
        }
        c = c + 1;
    }
    n
}

/// Whether the optional-feature picks are valid for the given slots.
pub fn optional_feature_choices_valid(choices: &[String], slots: &[FeatureSlot]) -> (r: bool)
    ensures
        r == feature_choices_ok(choices@, slots@),
{
    let mut total: usize = 0;
    let mut s: usize = 0;
    while s < slots.len()
        invariant
            s <= slots@.len(),
            total as int == sum_idx(s as int, required_of(slots@)),
            total <= choices@.len(),
            forall|t: int| 0 <= t < s ==> chosen_in(choices@, (#[trigger] slots@[t]).eligible_ids@) == slot_required(
                slots@[t],
            ),
        decreases slots@.len() - s,
    {
        let slot = &slots[s];
        let required = if slot.quota < slot.eligible_ids.len() { slot.quota } else { slot.eligible_ids.len() };
        let chosen = count_eligible(choices, &slot.eligible_ids);
        if chosen != required {
            return false;
        }
        proof {
            crate::counting::lemma_count_bound(choices@.len() as int, eligible_pick(choices@, slot.eligible_ids@));
        }
        if required > choices.len() - total {
            proof {
                lemma_sum_rest_nonneg(slots@, s as int + 1);
            }
            return false;
        }
        total = total + required;
        s = s + 1;
    }
    if total != choices.len() {
        return false;
    }
    let mut c: usize = 0;
    while c < choices.len()
        invariant
            c <= choices@.len(),
            forall|d: int| 0 <= d < c ==> #[trigger] eligible_somewhere(slots@, choices@[d]),
        decreases choices@.len() - c,
    {
        let mut t: usize = 0;
        let mut found = false;
        while t < slots.len()
            invariant_except_break
                !found,
            invariant
                t <= slots@.len(),
                c < choices@.len(),
                forall|u: int| 0 <= u < t ==> !#[trigger] pool_has(slots@[u].eligible_ids@, choices@[c as int]),
            ensures
                found ==> exists|u: int| 0 <= u < slots@.len() && #[trigger] pool_has(slots@[u].eligible_ids@, choices@[c as int]),
                !found ==> forall|u: int| 0 <= u < slots@.len() ==> !#[trigger] pool_has(slots@[u].eligible_ids@, choices@[c as int]),
            decreases slots@.len() - t,
        {
            if pool_contains(&slots[t].eligible_ids, &choices[c]) {
                found = true;
                break;
            }
            t = t + 1;
        }
        if !found {
            assert(!eligible_somewhere(slots@, choices@[c as int]));
            return false;
        }
        c = c + 1;
    }
    true
}

/// Summing more slots never lowers the total.
proof fn lemma_sum_rest_nonneg(slots: Seq<FeatureSlot>, j: int)
    requires
        0 <= j <= slots.len(),
    ensures
        sum_idx(slots.len() as int, required_of(slots)) >= sum_idx(j, required_of(slots)),
    decreases slots.len() - j,
{
    if j < slots.len() {
        lemma_sum_rest_nonneg(slots, j + 1);
    }
}

} // verus!
