use lib::save::{check_save, SaveChecks, SaveError, SubclassGate};
use lib::validation::{AbilityBonusSource, FeatureSlot};

fn strings(items: &[&str]) -> Vec<String> {
    items.iter().map(|s| s.to_string()).collect()
}

fn valid() -> SaveChecks {
    SaveChecks {
        gates: vec![SubclassGate { class_name: "Fighter".to_string(), unlocked: true, has_subclass: true }],
        hp_rolled: true,
        hp_rolls: vec![7, 3],
        roll_dice: vec![10, 10],
        asi_choices: 1,
        asi_slots: 1,
        skill_choices: strings(&["athletics"]),
        skill_pools: vec![strings(&["athletics", "acrobatics"])],
        fixed_skills: strings(&["insight"]),
        custom_skills: vec![],
        expertise_choices: vec![],
        expertise_slots: 0,
        tool_choices: vec![],
        tool_pools: vec![],
        custom_tools_known: true,
        language_choices: strings(&["Elvish"]),
        language_pools: vec![strings(&["Elvish", "Dwarvish"])],
        custom_languages_known: true,
        bonus_source: AbilityBonusSource::Custom,
        species_grants: vec![],
        free_choice: false,
        species_ability_choices: vec![],
        custom_ability_choices: strings(&["str", "con"]),
        cantrip_choices: strings(&["light"]),
        cantrip_pools: vec![strings(&["light", "mage_hand"])],
        cantrip_required: vec![1],
        spell_choices: strings(&["shield"]),
        spell_pools: vec![strings(&["shield", "sleep"])],
        spell_required: vec![1],
        spell_grant_choices: vec![],
        spell_grant_slots: vec![],
        feature_types_active: false,
        feature_slots: vec![],
        optional_feature_choices: vec![],
        prereq_violations: vec![],
    }
}

fn refusal(c: &SaveChecks) -> SaveError {
    match check_save(c) {
        Err(e) => e,
        Ok(()) => panic!("expected the save to be refused"),
    }
}

#[test]
fn a_consistent_character_is_accepted() {
    assert!(check_save(&valid()).is_ok());
}

#[test]
fn a_missing_subclass_is_reported_first_with_the_class_name() {
    let mut c = valid();
    c.gates.push(SubclassGate { class_name: "Wizard".to_string(), unlocked: true, has_subclass: false });
    c.asi_choices = 9;
    let e = refusal(&c);
    assert!(matches!(e, SaveError::SubclassRequired { .. }));
    assert_eq!(e.message(), "A subclass must be selected for Wizard at this level");
}

#[test]
fn a_locked_subclass_choice_is_not_required() {
    let mut c = valid();
    c.gates.push(SubclassGate { class_name: "Wizard".to_string(), unlocked: false, has_subclass: false });
    assert!(check_save(&c).is_ok());
}

#[test]
fn a_roll_above_its_hit_die_is_refused() {
    let mut c = valid();
    c.roll_dice = vec![10, 6];
    c.hp_rolls = vec![7, 8];
    let e = refusal(&c);
    assert!(matches!(e, SaveError::RolledHpOutOfRange { hit_die: 6 }));
    assert_eq!(e.message(), "Rolled HP values must be between 1 and 6 (that level's class hit die)");
}

#[test]
fn rolls_are_ignored_for_fixed_hp() {
    let mut c = valid();
    c.hp_rolled = false;
    c.hp_rolls = vec![0, 99];
    assert!(check_save(&c).is_ok());
}

#[test]
fn each_later_check_has_its_own_refusal() {
    let mut c = valid();
    c.asi_slots = 2;
    let e = refusal(&c);
    assert!(matches!(e, SaveError::AsiMismatch));
    assert_eq!(e.message(), "Ability score improvements don't match what's unlocked across this character's classes");

    let mut c = valid();
    c.skill_choices = strings(&["arcana"]);
    let e = refusal(&c);
    assert!(matches!(e, SaveError::SkillChoices));
    assert_eq!(e.message(), "Skill choices don't match what's unlocked for these classes and background");

    let mut c = valid();
    c.expertise_slots = 1;
    c.expertise_choices = strings(&["stealth"]);
    let e = refusal(&c);
    assert!(matches!(e, SaveError::Expertise));
    assert_eq!(e.message(), "Expertise choices don't match what's unlocked, or name a skill you aren't proficient in");

    let mut c = valid();
    c.tool_choices = strings(&["Lute"]);
    let e = refusal(&c);
    assert!(matches!(e, SaveError::ToolChoices));
    assert_eq!(e.message(), "Tool choices don't match what's unlocked for these classes and background");

    let mut c = valid();
    c.custom_tools_known = false;
    let e = refusal(&c);
    assert!(matches!(e, SaveError::CustomTool));
    assert_eq!(e.message(), "Custom tool proficiency isn't a recognized tool");

    let mut c = valid();
    c.language_choices = vec![];
    let e = refusal(&c);
    assert!(matches!(e, SaveError::LanguageChoices));
    assert_eq!(e.message(), "Language choices don't match what's unlocked for this background and species");

    let mut c = valid();
    c.custom_languages_known = false;
    let e = refusal(&c);
    assert!(matches!(e, SaveError::CustomLanguage));
    assert_eq!(e.message(), "Custom language proficiency isn't a recognized language");
}

#[test]
fn ability_spell_and_feature_checks_have_their_own_refusals() {
    let mut c = valid();
    c.custom_ability_choices = strings(&["str", "str"]);
    let e = refusal(&c);
    assert!(matches!(e, SaveError::SpeciesAbility));
    assert_eq!(e.message(), "Species ability choices don't match what this species offers");

    let mut c = valid();
    c.cantrip_choices = strings(&["fire_bolt"]);
    let e = refusal(&c);
    assert!(matches!(e, SaveError::CantripChoices));
    assert_eq!(e.message(), "Cantrip choices don't match what's unlocked across this character's classes");

    let mut c = valid();
    c.spell_choices = strings(&["shield", "sleep"]);
    let e = refusal(&c);
    assert!(matches!(e, SaveError::SpellChoices));
    assert_eq!(e.message(), "Spell choices don't match what's unlocked across this character's classes");

    let mut c = valid();
    c.spell_grant_slots = vec![strings(&["shield", "bless"])];
    c.spell_grant_choices = strings(&["shield"]);
    let e = refusal(&c);
    assert!(matches!(e, SaveError::SpellGrantChoices));
    assert_eq!(e.message(), "Subclass spell choices don't match what's unlocked for this character's classes");

    let mut c = valid();
    c.feature_types_active = true;
    c.feature_slots = vec![FeatureSlot { eligible_ids: strings(&["archery", "defense"]), quota: 1 }];
    let e = refusal(&c);
    assert!(matches!(e, SaveError::OptionalFeatures));
    assert_eq!(
        e.message(),
        "Optional feature choices don't match what's unlocked, ineligible, or a pact prerequisite for this character's classes"
    );
    c.optional_feature_choices = strings(&["defense"]);
    assert!(check_save(&c).is_ok());

    let mut c = valid();
    c.optional_feature_choices = strings(&["archery"]);
    let e = refusal(&c);
    assert!(matches!(e, SaveError::OptionalFeaturesNotUnlocked));
    assert_eq!(e.message(), "Optional feature choices don't match what's unlocked for this character's classes");
}

#[test]
fn prerequisite_violations_are_joined() {
    let mut c = valid();
    c.prereq_violations = strings(&["Wizard needs Intelligence 13", "Fighter needs Strength 13"]);
    let e = refusal(&c);
    assert!(matches!(e, SaveError::Prerequisites { .. }));
    assert_eq!(e.message(), "Wizard needs Intelligence 13; Fighter needs Strength 13");
}
