//! The decisions made when a character is saved: every choice the request
//! carries is re-checked, in order, against what the character's classes,
//! background and species unlock, and the first mismatch is reported.
use vstd::prelude::*;
use crate::matching::{attribute_multiclass_choices, attribution_exists, total_required};
use crate::asi::AsiChoice;
use crate::slots::{expand_grant_slots, grant_slots, levels_upto, slot_views};
use crate::species::AbilityBonusGrant;
use crate::text::{clone_strings, decimal, join, join_strings, push_decimal, push_str, views};
use crate::validation::{
    ability_bonus_ok, ability_bonus_valid, check_hp_rolls, roll_dice_spec, roll_hit_dice, choices_fit_pools, expertise_valid, feature_choices_ok,
    fits_pools, in_any, optional_feature_choices_valid, roll_ok, spell_grant_choices_valid, spell_grants_ok,
    AbilityBonusSource, FeatureSlot,
};

verus! {

/// Why a save was refused.
pub enum SaveError {
    SubclassRequired { class_name: String },
    RolledHpOutOfRange { hit_die: u8 },
    AsiMismatch,
    SkillChoices,
    Expertise,
    ToolChoices,
    CustomTool,
    LanguageChoices,
    CustomLanguage,
    SpeciesAbility,
    CantripChoices,
    SpellChoices,
    SpellGrantChoices,
    OptionalFeatures,
    OptionalFeaturesNotUnlocked,
    Prerequisites { violations: Vec<String> },
}

/// The text shown for each refusal.
pub open spec fn message_text(e: SaveError) -> Seq<char> {
    match e {
        SaveError::SubclassRequired { class_name } => "A subclass must be selected for "@ + class_name@
            + " at this level"@,
        SaveError::RolledHpOutOfRange { hit_die } => "Rolled HP values must be between 1 and "@ + decimal(hit_die as nat)
            + " (that level's class hit die)"@,
        SaveError::AsiMismatch => "Ability score improvements don't match what's unlocked across this character's classes"@,
        SaveError::SkillChoices => "Skill choices don't match what's unlocked for these classes and background"@,
        SaveError::Expertise => "Expertise choices don't match what's unlocked, or name a skill you aren't proficient in"@,
        SaveError::ToolChoices => "Tool choices don't match what's unlocked for these classes and background"@,
        SaveError::CustomTool => "Custom tool proficiency isn't a recognized tool"@,
        SaveError::LanguageChoices => "Language choices don't match what's unlocked for this background and species"@,
        SaveError::CustomLanguage => "Custom language proficiency isn't a recognized language"@,
        SaveError::SpeciesAbility => "Species ability choices don't match what this species offers"@,
        SaveError::CantripChoices => "Cantrip choices don't match what's unlocked across this character's classes"@,
        SaveError::SpellChoices => "Spell choices don't match what's unlocked across this character's classes"@,
        SaveError::SpellGrantChoices => "Subclass spell choices don't match what's unlocked for this character's classes"@,
        SaveError::OptionalFeatures => "Optional feature choices don't match what's unlocked, ineligible, or a pact prerequisite for this character's classes"@,
        SaveError::OptionalFeaturesNotUnlocked => "Optional feature choices don't match what's unlocked for this character's classes"@,
        SaveError::Prerequisites { violations } => join(views(violations@), "; "@),
    }
}

impl SaveError {
    /// The refusal's text.
    pub fn message(&self) -> (r: String)
        ensures
            r@ == message_text(*self),
    {
        let mut s = String::new();
        match self {
            SaveError::SubclassRequired { class_name } => {
                push_str(&mut s, "A subclass must be selected for ");
                push_str(&mut s, class_name.as_str());
                push_str(&mut s, " at this level");
            },
            SaveError::RolledHpOutOfRange { hit_die } => {
                push_str(&mut s, "Rolled HP values must be between 1 and ");
                push_decimal(&mut s, *hit_die as u64);
                push_str(&mut s, " (that level's class hit die)");
            },
            SaveError::AsiMismatch => push_str(
                &mut s,
                "Ability score improvements don't match what's unlocked across this character's classes",
            ),
            SaveError::SkillChoices => push_str(
                &mut s,
                "Skill choices don't match what's unlocked for these classes and background",
            ),
            SaveError::Expertise => push_str(
                &mut s,
                "Expertise choices don't match what's unlocked, or name a skill you aren't proficient in",
            ),
            SaveError::ToolChoices => push_str(
                &mut s,
                "Tool choices don't match what's unlocked for these classes and background",
            ),
            SaveError::CustomTool => push_str(&mut s, "Custom tool proficiency isn't a recognized tool"),
            SaveError::LanguageChoices => push_str(
                &mut s,
                "Language choices don't match what's unlocked for this background and species",
            ),
            SaveError::CustomLanguage => push_str(&mut s, "Custom language proficiency isn't a recognized language"),
            SaveError::SpeciesAbility => push_str(&mut s, "Species ability choices don't match what this species offers"),
            SaveError::CantripChoices => push_str(
                &mut s,
                "Cantrip choices don't match what's unlocked across this character's classes",
            ),
            SaveError::SpellChoices => push_str(
                &mut s,
                "Spell choices don't match what's unlocked across this character's classes",
            ),
            SaveError::SpellGrantChoices => push_str(
                &mut s,
                "Subclass spell choices don't match what's unlocked for this character's classes",
            ),
            SaveError::OptionalFeatures => push_str(
                &mut s,
                "Optional feature choices don't match what's unlocked, ineligible, or a pact prerequisite for this character's classes",
            ),
            SaveError::OptionalFeaturesNotUnlocked => push_str(
                &mut s,
                "Optional feature choices don't match what's unlocked for this character's classes",
            ),
            SaveError::Prerequisites { violations } => {
                let joined = join_strings(violations, "; ");
                push_str(&mut s, joined.as_str());
            },
        }
        proof {
            assert(s@ =~= message_text(*self));
        }
        s
    }
}

/// One class of the submitted character, as its subclass gate sees it.
pub struct SubclassGate {
    pub class_name: String,
    /// The class's subclass choice has unlocked at the character's level in it.
    pub unlocked: bool,
    /// A subclass of this class, valid at this level, is selected.
    pub has_subclass: bool,
}

/// Everything the save checks compare: the submitted picks next to the slots,
/// pools and counts re-derived from the stored classes, background and species.
pub struct SaveChecks {
    pub gates: Vec<SubclassGate>,
    pub hp_rolled: bool,
    pub hp_rolls: Vec<u8>,
    /// Hit die of each rolled level, in slot order.
    pub roll_dice: Vec<u8>,
    pub asi_choices: usize,
    pub asi_slots: usize,
    pub skill_choices: Vec<String>,
    pub skill_pools: Vec<Vec<String>>,
    pub fixed_skills: Vec<String>,
    pub custom_skills: Vec<String>,
    pub expertise_choices: Vec<String>,
    pub expertise_slots: usize,
    pub tool_choices: Vec<String>,
    pub tool_pools: Vec<Vec<String>>,
    /// Every custom tool proficiency names a known tool.
    pub custom_tools_known: bool,
    pub language_choices: Vec<String>,
    pub language_pools: Vec<Vec<String>>,
    /// Every custom language proficiency names a known language.
    pub custom_languages_known: bool,
    pub bonus_source: AbilityBonusSource,
    pub species_grants: Vec<AbilityBonusGrant>,
    /// The species' choose grant allows any ability.
    pub free_choice: bool,
    pub species_ability_choices: Vec<String>,
    pub custom_ability_choices: Vec<String>,
    pub cantrip_choices: Vec<String>,
    pub cantrip_pools: Vec<Vec<String>>,
    pub cantrip_required: Vec<usize>,
    pub spell_choices: Vec<String>,
    pub spell_pools: Vec<Vec<String>>,
    pub spell_required: Vec<usize>,
    pub spell_grant_choices: Vec<String>,
    pub spell_grant_slots: Vec<Vec<String>>,
    /// Some optional feature type is active for some class.
    pub feature_types_active: bool,
    pub feature_slots: Vec<FeatureSlot>,
    pub optional_feature_choices: Vec<String>,
    pub prereq_violations: Vec<String>,
}

/// The first class whose subclass has unlocked but none is selected.
pub open spec fn first_missing_subclass(gates: Seq<SubclassGate>) -> Option<int> {
    if exists|k: int| 0 <= k < gates.len() && gates[k].unlocked && !gates[k].has_subclass {
        Some(
            choose|k: int|
                0 <= k < gates.len() && gates[k].unlocked && !gates[k].has_subclass && forall|j: int|
                    0 <= j < k ==> !(#[trigger] gates[j].unlocked && !gates[j].has_subclass),
        )
    } else {
        None
    }
}

/// Rolled HP are all within their hit dice.
pub open spec fn rolls_ok(c: SaveChecks) -> bool {
    forall|j: int| 0 <= j < c.hp_rolls@.len() && j < c.roll_dice@.len() ==> #[trigger] roll_ok(c.hp_rolls@, c.roll_dice@, j)
}

/// Expertise picks are valid.
pub open spec fn expertise_ok(c: SaveChecks) -> bool {
    c.expertise_choices@.len() == c.expertise_slots && forall|i: int|
        0 <= i < c.expertise_choices@.len() ==> #[trigger] in_any(
            c.fixed_skills@,
            c.skill_choices@,
            c.custom_skills@,
            c.expertise_choices@[i],
        )
}

/// Optional-feature picks are valid.
pub open spec fn features_ok(c: SaveChecks) -> bool {
    if c.feature_types_active {
        feature_choices_ok(c.optional_feature_choices@, c.feature_slots@)
    } else {
        c.optional_feature_choices@.len() == 0
    }
}

/// The checks after the subclass and HP-roll gates, in order.
pub open spec fn later_checks(c: SaveChecks) -> Result<(), SaveError> {
    if c.asi_choices != c.asi_slots {
        Err(SaveError::AsiMismatch)
    } else if !fits_pools(c.skill_choices@, c.skill_pools@) {
        Err(SaveError::SkillChoices)
    } else if !expertise_ok(c) {
        Err(SaveError::Expertise)
    } else if !fits_pools(c.tool_choices@, c.tool_pools@) {
        Err(SaveError::ToolChoices)
    } else if !c.custom_tools_known {
        Err(SaveError::CustomTool)
    } else if !fits_pools(c.language_choices@, c.language_pools@) {
        Err(SaveError::LanguageChoices)
    } else if !c.custom_languages_known {
        Err(SaveError::CustomLanguage)
    } else if !ability_bonus_ok(
        c.bonus_source,
        c.species_grants@,
        c.free_choice,
        c.species_ability_choices@,
        c.custom_ability_choices@,
    ) {
        Err(SaveError::SpeciesAbility)
    } else if !(c.cantrip_choices@.len() == total_required(c.cantrip_required@) && attribution_exists(
        c.cantrip_choices@,
        c.cantrip_pools@,
        c.cantrip_required@,
    )) {
        Err(SaveError::CantripChoices)
    } else if !(c.spell_choices@.len() == total_required(c.spell_required@) && attribution_exists(
        c.spell_choices@,
        c.spell_pools@,
        c.spell_required@,
    )) {
        Err(SaveError::SpellChoices)
    } else if !spell_grants_ok(c.spell_grant_choices@, c.spell_grant_slots@, c.cantrip_choices@, c.spell_choices@) {
        Err(SaveError::SpellGrantChoices)
    } else if !features_ok(c) {
        if c.feature_types_active {
            Err(SaveError::OptionalFeatures)
        } else {
            Err(SaveError::OptionalFeaturesNotUnlocked)
        }
    } else if c.prereq_violations@.len() > 0 {
        Err(SaveError::Prerequisites { violations: c.prereq_violations })
    } else {
        Ok(())
    }
}

/// What a save request gets: the first failing check's refusal, or `Ok`.
pub open spec fn save_verdict(c: SaveChecks) -> Result<(), SaveError> {
    match first_missing_subclass(c.gates@) {
        Some(k) => Err(SaveError::SubclassRequired { class_name: c.gates@[k].class_name }),
        None => if c.hp_rolled && !rolls_ok(c) {
            Err(SaveError::RolledHpOutOfRange { hit_die: c.roll_dice@[first_bad(c.hp_rolls@, c.roll_dice@)] })
        } else {
            later_checks(c)
        },
    }
}

/// The first roll outside its hit die.
pub open spec fn first_bad(rolls: Seq<u8>, dice: Seq<u8>) -> int {
    choose|j: int|
        0 <= j < rolls.len() && j < dice.len() && !roll_ok(rolls, dice, j) && forall|k: int|
            0 <= k < j ==> #[trigger] roll_ok(rolls, dice, k)
}

fn gate_check(gates: &Vec<SubclassGate>) -> (r: Option<usize>)
    ensures
        r matches Some(k) ==> k < gates@.len() && first_missing_subclass(gates@) == Some(k as int),
        r is None <==> first_missing_subclass(gates@) is None,
{
    let mut k: usize = 0;
    while k < gates.len()
        invariant
            k <= gates@.len(),
            forall|j: int| 0 <= j < k ==> !(#[trigger] gates@[j].unlocked && !gates@[j].has_subclass),
        decreases gates@.len() - k,
    {
        if gates[k].unlocked && !gates[k].has_subclass {
            proof {
                let c = choose|c: int|
                    0 <= c < gates@.len() && gates@[c].unlocked && !gates@[c].has_subclass && forall|j: int|
                        0 <= j < c ==> !(#[trigger] gates@[j].unlocked && !gates@[j].has_subclass);
                if c < k {
                    assert(!(gates@[c].unlocked && !gates@[c].has_subclass));
                } else if c > k {
                    assert(!(gates@[k as int].unlocked && !gates@[k as int].has_subclass));
                }
            }
            return Some(k);
        }
        k = k + 1;
    }
    None
}

proof fn lemma_first_bad(rolls: Seq<u8>, dice: Seq<u8>, j: int)
    requires
        0 <= j < rolls.len() && j < dice.len() && !roll_ok(rolls, dice, j) && forall|k: int|
            0 <= k < j ==> #[trigger] roll_ok(rolls, dice, k),
    ensures
        first_bad(rolls, dice) == j,
{
    let c = first_bad(rolls, dice);
    if c < j {
        assert(roll_ok(rolls, dice, c));
    } else if c > j {
        assert(roll_ok(rolls, dice, j));
    }
}

/// A refusal as it is seen: which check refused, and its text.
pub open spec fn error_view(e: SaveError) -> (int, Seq<char>) {
    let tag = match e {
        SaveError::SubclassRequired { .. } => 0int,
        SaveError::RolledHpOutOfRange { .. } => 1,
        SaveError::AsiMismatch => 2,
        SaveError::SkillChoices => 3,
        SaveError::Expertise => 4,
        SaveError::ToolChoices => 5,
        SaveError::CustomTool => 6,
        SaveError::LanguageChoices => 7,
        SaveError::CustomLanguage => 8,
        SaveError::SpeciesAbility => 9,
        SaveError::CantripChoices => 10,
        SaveError::SpellChoices => 11,
        SaveError::SpellGrantChoices => 12,
        SaveError::OptionalFeatures => 13,
        SaveError::OptionalFeaturesNotUnlocked => 14,
        SaveError::Prerequisites { .. } => 15,
    };
    (tag, message_text(e))
}

/// Two verdicts agree: both accept, or both refuse at the same check with the same text.
pub open spec fn same_verdict(a: Result<(), SaveError>, b: Result<(), SaveError>) -> bool {
    match (a, b) {
        (Ok(()), Ok(())) => true,
        (Err(x), Err(y)) => error_view(x) == error_view(y),
        _ => false,
    }
}

fn later_save_checks(c: &SaveChecks) -> (r: Result<(), SaveError>)
    requires
        c.cantrip_pools@.len() <= c.cantrip_required@.len(),
        c.spell_pools@.len() <= c.spell_required@.len(),
    ensures
        same_verdict(r, later_checks(*c)),
{
    if c.asi_choices != c.asi_slots {
        return Err(SaveError::AsiMismatch);
    }
    if !choices_fit_pools(&c.skill_choices, &c.skill_pools) {
        return Err(SaveError::SkillChoices);
    }
    if !expertise_valid(&c.expertise_choices, c.expertise_slots, &c.fixed_skills, &c.skill_choices, &c.custom_skills) {
        return Err(SaveError::Expertise);
    }
    if !choices_fit_pools(&c.tool_choices, &c.tool_pools) {
        return Err(SaveError::ToolChoices);
    }
    if !c.custom_tools_known {
        return Err(SaveError::CustomTool);
    }
    if !choices_fit_pools(&c.language_choices, &c.language_pools) {
        return Err(SaveError::LanguageChoices);
    }
    if !c.custom_languages_known {
        return Err(SaveError::CustomLanguage);
    }
    if !ability_bonus_valid(
        c.bonus_source,
        &c.species_grants,
        c.free_choice,
        &c.species_ability_choices,
        &c.custom_ability_choices,
    ) {
        return Err(SaveError::SpeciesAbility);
    }
    if !attribute_multiclass_choices(&c.cantrip_choices, &c.cantrip_pools, &c.cantrip_required) {
        return Err(SaveError::CantripChoices);
    }
    if !attribute_multiclass_choices(&c.spell_choices, &c.spell_pools, &c.spell_required) {
        return Err(SaveError::SpellChoices);
    }
    if !spell_grant_choices_valid(&c.spell_grant_choices, &c.spell_grant_slots, &c.cantrip_choices, &c.spell_choices) {
        return Err(SaveError::SpellGrantChoices);
    }
    if c.feature_types_active {
        if !optional_feature_choices_valid(&c.optional_feature_choices, &c.feature_slots) {
            return Err(SaveError::OptionalFeatures);
        }
    } else if c.optional_feature_choices.len() != 0 {
        return Err(SaveError::OptionalFeaturesNotUnlocked);
    }
    if c.prereq_violations.len() > 0 {
        let violations = clone_strings(&c.prereq_violations);
        return Err(SaveError::Prerequisites { violations });
    }
    Ok(())
}

// ---------------------------------------------------------------------------
// Assembling the checks
// ---------------------------------------------------------------------------

/// One of the character's classes with what the save checks take from its
/// stored class detail and spell lists.
pub struct ClassFacts {
    pub class_name: String,
    pub level: u8,
    pub hit_die: u8,
    /// Class level at which its subclass choice unlocks, if it has one.
    pub subclass_unlock: Option<u8>,
    /// A subclass valid at this level is selected.
    pub has_active_subclass: bool,
    /// The class's ASI levels, ascending.
    pub asi_levels: Vec<u8>,
    /// Cantrip ids the class may learn at this level.
    pub cantrip_pool: Vec<String>,
    /// Cantrips the class knows at this level.
    pub cantrips_known: usize,
    /// Spell ids the class may learn at this level.
    pub spell_pool: Vec<String>,
    /// Spells the class knows (or prepares) at this level.
    pub spells_known: usize,
}

/// What the submitted character chose.
pub struct SubmittedPicks {
    pub hp_rolled: bool,
    pub hp_rolls: Vec<u8>,
    pub asi_choices: Vec<Option<AsiChoice>>,
    pub skill_choices: Vec<String>,
    pub custom_skills: Vec<String>,
    pub expertise_choices: Vec<String>,
    pub tool_choices: Vec<String>,
    pub language_choices: Vec<String>,
    pub bonus_source: AbilityBonusSource,
    pub species_ability_choices: Vec<String>,
    pub custom_ability_choices: Vec<String>,
    pub cantrip_choices: Vec<String>,
    pub spell_choices: Vec<String>,
    pub spell_grant_choices: Vec<String>,
    pub optional_feature_choices: Vec<String>,
}

/// What the stored background, species, subclasses and catalog offer.
pub struct OfferedSlots {
    pub skill_pools: Vec<Vec<String>>,
    pub fixed_skills: Vec<String>,
    pub expertise_slots: usize,
    pub tool_pools: Vec<Vec<String>>,
    pub custom_tools_known: bool,
    pub language_pools: Vec<Vec<String>>,
    pub custom_languages_known: bool,
    pub species_grants: Vec<AbilityBonusGrant>,
    pub free_choice: bool,
    /// The subclasses' spell-choice pools, `(count, spell ids)` each.
    pub spell_grant_pools: Vec<(u8, Vec<String>)>,
    pub feature_types_active: bool,
    pub feature_slots: Vec<FeatureSlot>,
    pub prereq_violations: Vec<String>,
}

/// The subclass choice has unlocked at `level`.
pub open spec fn unlocked_at(unlock: Option<u8>, level: u8) -> bool {
    match unlock {
        Some(u) => u <= level,
        None => false,
    }
}

/// Each class's level, in order.
pub open spec fn class_levels(classes: Seq<ClassFacts>) -> Seq<u8> {
    classes.map_values(|c: ClassFacts| c.level)
}

/// Each class's hit die, in order.
pub open spec fn class_dice(classes: Seq<ClassFacts>) -> Seq<u8> {
    classes.map_values(|c: ClassFacts| c.hit_die)
}

/// ASI slots the classes unlock: each class's ASI levels up to its level.
pub open spec fn asi_slot_count(classes: Seq<ClassFacts>) -> nat
    decreases classes.len(),
{
    if classes.len() == 0 {
        0
    } else {
        asi_slot_count(classes.drop_last()) + levels_upto(classes.last().asi_levels@, classes.last().level).len()
    }
}

proof fn lemma_asi_count_prefix(classes: Seq<ClassFacts>, i: int)
    requires
        0 <= i <= classes.len(),
    ensures
        asi_slot_count(classes.take(i)) <= asi_slot_count(classes),
    decreases classes.len() - i,
{
    if i < classes.len() {
        lemma_asi_count_prefix(classes, i + 1);
        assert(classes.take(i + 1).drop_last() =~= classes.take(i));
    } else {
        assert(classes.take(i) =~= classes);
    }
}

fn unlocked_levels(levels: &Vec<u8>, level: u8) -> (r: usize)
    ensures
        r == levels_upto(levels@, level).len(),
{
    let mut r: usize = 0;
    let mut j: usize = 0;
    while j < levels.len()
        invariant
            j <= levels@.len(),
            r == levels_upto(levels@.take(j as int), level).len(),
            r <= j,
        decreases levels@.len() - j,
    {
        proof {
            assert(levels@.take(j + 1).drop_last() =~= levels@.take(j as int));
        }
        if levels[j] <= level {
            r = r + 1;
        }
        j = j + 1;
    }
    proof {
        assert(levels@.take(levels@.len() as int) =~= levels@);
    }
    r
}

/// A class's cantrip pool (or, with `spells`, its spell pool).
pub open spec fn pool_of(c: ClassFacts, spells: bool) -> Seq<String> {
    if spells { c.spell_pool@ } else { c.cantrip_pool@ }
}

/// What a class must know from that pool, capped at the pool's size.
pub open spec fn budget_of(c: ClassFacts, spells: bool) -> int {
    let known = if spells { c.spells_known } else { c.cantrips_known };
    if known < pool_of(c, spells).len() { known as int } else { pool_of(c, spells).len() as int }
}

fn pools_and_budgets(classes: &[ClassFacts], spells: bool) -> (r: (Vec<Vec<String>>, Vec<usize>))
    ensures
        r.0@.len() == classes@.len(),
        r.1@.len() == classes@.len(),
        forall|k: int| 0 <= k < classes@.len() ==> views((#[trigger] r.0@[k])@) == views(pool_of(classes@[k], spells)),
        forall|k: int| 0 <= k < classes@.len() ==> #[trigger] r.1@[k] == budget_of(classes@[k], spells),
{
    let mut pools: Vec<Vec<String>> = Vec::new();
    let mut budgets: Vec<usize> = Vec::new();
    let mut i: usize = 0;
    while i < classes.len()
        invariant
            i <= classes@.len(),
            pools@.len() == i,
            budgets@.len() == i,
            forall|k: int| 0 <= k < i ==> views((#[trigger] pools@[k])@) == views(pool_of(classes@[k], spells)),
            forall|k: int| 0 <= k < i ==> #[trigger] budgets@[k] == budget_of(classes@[k], spells),
        decreases classes@.len() - i,
    {
        let pool = if spells { &classes[i].spell_pool } else { &classes[i].cantrip_pool };
        let known = if spells { classes[i].spells_known } else { classes[i].cantrips_known };
        let copy = clone_strings(pool);
        let b: usize = if known < pool.len() { known } else { pool.len() };
        proof {
            assert(views(copy@) == views(pool_of(classes@[i as int], spells)));
            assert(b == budget_of(classes@[i as int], spells));
        }
        pools.push(copy);
        budgets.push(b);
        i = i + 1;
    }
    (pools, budgets)
}

/// The save checks of a submitted character: each class's subclass gate
/// (unlocked at its level, and whether a valid subclass is picked), the hit
/// die of each rolled level, the ASI slots the classes unlock, each class's
/// own cantrip and spell pool with its budget capped at the pool's size, the
/// subclass spell-choice slots, and the submitted picks and offered slots as
/// given.
pub fn save_checks(classes: &[ClassFacts], picks: SubmittedPicks, offered: OfferedSlots) -> (r: SaveChecks)
    requires
        asi_slot_count(classes@) <= usize::MAX,
    ensures
        r.gates@.len() == classes@.len(),
        forall|k: int|
            0 <= k < classes@.len() ==> (#[trigger] r.gates@[k]).class_name@ == classes@[k].class_name@
                && r.gates@[k].unlocked == unlocked_at(classes@[k].subclass_unlock, classes@[k].level)
                && r.gates@[k].has_subclass == classes@[k].has_active_subclass,
        r.hp_rolled == picks.hp_rolled,
        r.hp_rolls == picks.hp_rolls,
        r.roll_dice@ == roll_dice_spec(class_levels(classes@), class_dice(classes@)),
        r.asi_choices == picks.asi_choices@.len(),
        r.asi_slots == asi_slot_count(classes@),
        r.cantrip_pools@.len() == classes@.len(),
        r.cantrip_required@.len() == classes@.len(),
        r.spell_pools@.len() == classes@.len(),
        r.spell_required@.len() == classes@.len(),
        forall|k: int|
            0 <= k < classes@.len() ==> views((#[trigger] r.cantrip_pools@[k])@) == views(classes@[k].cantrip_pool@)
                && r.cantrip_required@[k] == budget_of(classes@[k], false),
        forall|k: int|
            0 <= k < classes@.len() ==> views((#[trigger] r.spell_pools@[k])@) == views(classes@[k].spell_pool@)
                && r.spell_required@[k] == budget_of(classes@[k], true),
        slot_views(r.spell_grant_slots@) == grant_slots(offered.spell_grant_pools@),
        r.skill_choices == picks.skill_choices,
        r.skill_pools == offered.skill_pools,
        r.fixed_skills == offered.fixed_skills,
        r.custom_skills == picks.custom_skills,
        r.expertise_choices == picks.expertise_choices,
        r.expertise_slots == offered.expertise_slots,
        r.tool_choices == picks.tool_choices,
        r.tool_pools == offered.tool_pools,
        r.custom_tools_known == offered.custom_tools_known,
        r.language_choices == picks.language_choices,
        r.language_pools == offered.language_pools,
        r.custom_languages_known == offered.custom_languages_known,
        r.bonus_source == picks.bonus_source,
        r.species_grants == offered.species_grants,
        r.free_choice == offered.free_choice,
        r.species_ability_choices == picks.species_ability_choices,
        r.custom_ability_choices == picks.custom_ability_choices,
        r.cantrip_choices == picks.cantrip_choices,
        r.spell_choices == picks.spell_choices,
        r.spell_grant_choices == picks.spell_grant_choices,
        r.feature_types_active == offered.feature_types_active,
        r.feature_slots == offered.feature_slots,
        r.optional_feature_choices == picks.optional_feature_choices,
        r.prereq_violations == offered.prereq_violations,
{
    let n = classes.len();
    let mut gates: Vec<SubclassGate> = Vec::new();
    let mut levels: Vec<u8> = Vec::new();
    let mut dice: Vec<u8> = Vec::new();
    let mut asi_slots: usize = 0;
    let mut i: usize = 0;
    while i < n
        invariant
            i <= n,
            n == classes@.len(),
            asi_slot_count(classes@) <= usize::MAX,
            gates@.len() == i,
            forall|k: int|
                0 <= k < i ==> (#[trigger] gates@[k]).class_name@ == classes@[k].class_name@ && gates@[k].unlocked
                    == unlocked_at(classes@[k].subclass_unlock, classes@[k].level) && gates@[k].has_subclass
                    == classes@[k].has_active_subclass,
            levels@ == class_levels(classes@).take(i as int),
            dice@ == class_dice(classes@).take(i as int),
            asi_slots == asi_slot_count(classes@.take(i as int)),
        decreases n - i,
    {
        let c = &classes[i];
        let unlocked = match c.subclass_unlock {
            Some(u) => u <= c.level,
            None => false,
        };
        gates.push(SubclassGate { class_name: c.class_name.clone(), unlocked, has_subclass: c.has_active_subclass });
        levels.push(c.level);
        dice.push(c.hit_die);
        proof {
            assert(class_levels(classes@).take(i + 1) =~= class_levels(classes@).take(i as int).push(c.level));
            assert(class_dice(classes@).take(i + 1) =~= class_dice(classes@).take(i as int).push(c.hit_die));
            assert(classes@.take(i + 1).drop_last() =~= classes@.take(i as int));
            lemma_asi_count_prefix(classes@, i + 1);
        }
        let here = unlocked_levels(&c.asi_levels, c.level);
        asi_slots = asi_slots + here;
        i = i + 1;
    }
    proof {
        assert(classes@.take(n as int) =~= classes@);
        assert(class_levels(classes@).take(n as int) =~= class_levels(classes@));
        assert(class_dice(classes@).take(n as int) =~= class_dice(classes@));
    }
    let (cantrip_pools, cantrip_required) = pools_and_budgets(classes, false);
    let (spell_pools, spell_required) = pools_and_budgets(classes, true);
    let ghost cp = cantrip_pools@;
    let ghost sp = spell_pools@;
    let ghost cr = cantrip_required@;
    let ghost sr = spell_required@;
    let roll_dice = roll_hit_dice(&levels, &dice);
    let spell_grant_slots = expand_grant_slots(&offered.spell_grant_pools);
    let r = SaveChecks {
        gates,
        hp_rolled: picks.hp_rolled,
        hp_rolls: picks.hp_rolls,
        roll_dice,
        asi_choices: picks.asi_choices.len(),
        asi_slots,
        skill_choices: picks.skill_choices,
        skill_pools: offered.skill_pools,
        fixed_skills: offered.fixed_skills,
        custom_skills: picks.custom_skills,
        expertise_choices: picks.expertise_choices,
        expertise_slots: offered.expertise_slots,
        tool_choices: picks.tool_choices,
        tool_pools: offered.tool_pools,
        custom_tools_known: offered.custom_tools_known,
        language_choices: picks.language_choices,
        language_pools: offered.language_pools,
        custom_languages_known: offered.custom_languages_known,
        bonus_source: picks.bonus_source,
        species_grants: offered.species_grants,
        free_choice: offered.free_choice,
        species_ability_choices: picks.species_ability_choices,
        custom_ability_choices: picks.custom_ability_choices,
        cantrip_choices: picks.cantrip_choices,
        cantrip_pools,
        cantrip_required,
        spell_choices: picks.spell_choices,
        spell_pools,
        spell_required,
        spell_grant_choices: picks.spell_grant_choices,
        spell_grant_slots,
        feature_types_active: offered.feature_types_active,
        feature_slots: offered.feature_slots,
        optional_feature_choices: picks.optional_feature_choices,
        prereq_violations: offered.prereq_violations,
    };
    proof {
        assert(r.cantrip_pools@ == cp);
        assert(r.spell_pools@ == sp);
        assert(r.cantrip_required@ == cr);
        assert(r.spell_required@ == sr);
    }
    r
}

/// Runs every save check in order and returns the first refusal, or `Ok`.
pub fn check_save(c: &SaveChecks) -> (r: Result<(), SaveError>)
    requires
        c.cantrip_pools@.len() <= c.cantrip_required@.len(),
        c.spell_pools@.len() <= c.spell_required@.len(),
    ensures
        same_verdict(r, save_verdict(*c)),
{
    match gate_check(&c.gates) {
        Some(k) => {
            let class_name = c.gates[k].class_name.clone();
            return Err(SaveError::SubclassRequired { class_name });
        },
        None => {},
    }
    if c.hp_rolled {
        match check_hp_rolls(&c.hp_rolls, &c.roll_dice) {
            Some(d) => {
                proof {
                    let j = choose|j: int|
                        0 <= j < c.hp_rolls@.len() && j < c.roll_dice@.len() && !#[trigger] roll_ok(
                            c.hp_rolls@,
                            c.roll_dice@,
                            j,
                        ) && d == c.roll_dice@[j] && forall|k: int| 0 <= k < j ==> #[trigger] roll_ok(c.hp_rolls@, c.roll_dice@, k);
                    lemma_first_bad(c.hp_rolls@, c.roll_dice@, j);
                }
                return Err(SaveError::RolledHpOutOfRange { hit_die: d });
            },
            None => {},
        }
    }
    later_save_checks(c)
}

/// A refusal names the class lacking a subclass exactly when one does: the
/// first class whose subclass unlocked without one being picked.
pub proof fn lemma_subclass_gate_first(c: SaveChecks)
    ensures
        first_missing_subclass(c.gates@) is Some ==> save_verdict(c) is Err,
        save_verdict(c) is Ok ==> forall|k: int| 0 <= k < c.gates@.len() && (#[trigger] c.gates@[k]).unlocked ==> c.gates@[k].has_subclass,
{
    if save_verdict(c) is Ok {
        assert forall|k: int| 0 <= k < c.gates@.len() && (#[trigger] c.gates@[k]).unlocked implies c.gates@[k].has_subclass by {
            if !c.gates@[k].has_subclass {
                assert(first_missing_subclass(c.gates@) is Some);
            }
        }
    }
}

/// An accepted save is consistent with everything the character's classes,
/// background and species unlock: every unlocked subclass picked, every
/// rolled HP within its level's hit die, as many ASIs as slots, skill, tool
/// and language picks each from their own slot, expertise only in proficient
/// skills, known custom tools and languages, valid ability-bonus picks,
/// cantrips and spells attributable to the classes' own pools and budgets,
/// valid subclass spell picks and optional features, and no prerequisite
/// violation.
pub proof fn lemma_accepted_save_is_consistent(c: SaveChecks)
    requires
        save_verdict(c) is Ok,
    ensures
        forall|k: int| 0 <= k < c.gates@.len() && (#[trigger] c.gates@[k]).unlocked ==> c.gates@[k].has_subclass,
        c.hp_rolled ==> rolls_ok(c),
        c.asi_choices == c.asi_slots,
        fits_pools(c.skill_choices@, c.skill_pools@),
        expertise_ok(c),
        fits_pools(c.tool_choices@, c.tool_pools@),
        c.custom_tools_known,
        fits_pools(c.language_choices@, c.language_pools@),
        c.custom_languages_known,
        ability_bonus_ok(
            c.bonus_source,
            c.species_grants@,
            c.free_choice,
            c.species_ability_choices@,
            c.custom_ability_choices@,
        ),
        c.cantrip_choices@.len() == total_required(c.cantrip_required@) && attribution_exists(
            c.cantrip_choices@,
            c.cantrip_pools@,
            c.cantrip_required@,
        ),
        c.spell_choices@.len() == total_required(c.spell_required@) && attribution_exists(
            c.spell_choices@,
            c.spell_pools@,
            c.spell_required@,
        ),
        spell_grants_ok(c.spell_grant_choices@, c.spell_grant_slots@, c.cantrip_choices@, c.spell_choices@),
        features_ok(c),
        c.prereq_violations@.len() == 0,
{
    lemma_subclass_gate_first(c);
}

} // verus!
