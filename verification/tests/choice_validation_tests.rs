use lib::species::AbilityBonusGrant;
use lib::validation::{
    ability_bonus_valid, check_hp_rolls, choices_fit_pools, expertise_valid, is_ability_code,
    optional_feature_choices_valid, roll_hit_dice, spell_grant_choices_valid, AbilityBonusSource, FeatureSlot,
};

fn strings(items: &[&str]) -> Vec<String> {
    items.iter().map(|s| s.to_string()).collect()
}

fn choose_grant(count: u8, from: &[&str]) -> AbilityBonusGrant {
    AbilityBonusGrant::Choose { count, amount: 1, from: strings(from) }
}

fn fixed(ability: &str) -> AbilityBonusGrant {
    AbilityBonusGrant::Fixed { ability: ability.to_string(), amount: 2 }
}

#[test]
fn ability_codes_are_the_six_short_names() {
    for code in ["str", "dex", "con", "int", "wis", "cha"] {
        assert!(is_ability_code(&code.to_string()));
    }
    assert!(!is_ability_code(&"STR".to_string()));
    assert!(!is_ability_code(&"luck".to_string()));
}

#[test]
fn choices_fit_pools_slot_by_slot() {
    let pools = vec![strings(&["athletics", "acrobatics"]), strings(&["history", "arcana"])];
    assert!(choices_fit_pools(&strings(&["acrobatics", "arcana"]), &pools));
    assert!(!choices_fit_pools(&strings(&["arcana", "acrobatics"]), &pools));
    assert!(!choices_fit_pools(&strings(&["acrobatics"]), &pools));
}

#[test]
fn expertise_needs_the_exact_count_of_proficient_skills() {
    let fixed = strings(&["insight"]);
    let chosen = strings(&["stealth"]);
    let custom = strings(&["arcana"]);
    assert!(expertise_valid(&strings(&["insight", "arcana"]), 2, &fixed, &chosen, &custom));
    assert!(!expertise_valid(&strings(&["insight"]), 2, &fixed, &chosen, &custom));
    assert!(!expertise_valid(&strings(&["athletics", "stealth"]), 2, &fixed, &chosen, &custom));
}

#[test]
fn spell_grants_must_fit_differ_and_not_repeat_picks() {
    let slots = vec![strings(&["guidance", "druidcraft"]), strings(&["guidance", "druidcraft"])];
    let cantrips = strings(&["light"]);
    let spells = strings(&["shield"]);
    assert!(spell_grant_choices_valid(&strings(&["guidance", "druidcraft"]), &slots, &cantrips, &spells));
    assert!(!spell_grant_choices_valid(&strings(&["guidance", "guidance"]), &slots, &cantrips, &spells));
    assert!(!spell_grant_choices_valid(&strings(&["guidance", "druidcraft"]), &slots, &strings(&["guidance"]), &spells));
    assert!(!spell_grant_choices_valid(&strings(&["guidance"]), &slots, &cantrips, &spells));
}

#[test]
fn species_bonus_picks_follow_the_choose_grant() {
    let grants = vec![fixed("cha"), choose_grant(2, &["str", "dex", "con"])];
    let none: Vec<String> = vec![];
    assert!(ability_bonus_valid(AbilityBonusSource::Species, &grants, false, &strings(&["str", "con"]), &none));
    assert!(!ability_bonus_valid(AbilityBonusSource::Species, &grants, false, &strings(&["str", "wis"]), &none));
    assert!(ability_bonus_valid(AbilityBonusSource::Species, &grants, true, &strings(&["str", "wis"]), &none));
    assert!(!ability_bonus_valid(AbilityBonusSource::Species, &grants, true, &strings(&["str", "luck"]), &none));
    assert!(!ability_bonus_valid(AbilityBonusSource::Species, &grants, false, &strings(&["str"]), &none));
    assert!(!ability_bonus_valid(AbilityBonusSource::Species, &grants, false, &strings(&["str", "con"]), &strings(&["dex", "wis"])));
}

#[test]
fn species_without_choose_grant_takes_no_picks() {
    let grants = vec![fixed("cha")];
    let none: Vec<String> = vec![];
    assert!(ability_bonus_valid(AbilityBonusSource::Species, &grants, false, &none, &none));
    assert!(!ability_bonus_valid(AbilityBonusSource::Species, &grants, false, &strings(&["str"]), &none));
}

#[test]
fn custom_bonus_needs_two_different_valid_abilities() {
    let grants = vec![choose_grant(1, &[])];
    let none: Vec<String> = vec![];
    assert!(ability_bonus_valid(AbilityBonusSource::Custom, &grants, false, &none, &strings(&["str", "dex"])));
    assert!(!ability_bonus_valid(AbilityBonusSource::Custom, &grants, false, &none, &strings(&["str", "str"])));
    assert!(!ability_bonus_valid(AbilityBonusSource::Custom, &grants, false, &none, &strings(&["str", "xyz"])));
    assert!(!ability_bonus_valid(AbilityBonusSource::Custom, &grants, false, &strings(&["wis"]), &strings(&["str", "dex"])));
}

#[test]
fn rolled_levels_use_each_level_class_hit_die() {
    assert_eq!(roll_hit_dice(&[3, 2], &[10, 6]), vec![10, 10, 6, 6]);
    assert_eq!(roll_hit_dice(&[1], &[12]), Vec::<u8>::new());
}

#[test]
fn check_hp_rolls_reports_the_first_bad_rolls_die() {
    assert_eq!(check_hp_rolls(&[5, 10, 6], &[10, 10, 6]), None);
    assert_eq!(check_hp_rolls(&[5, 11, 7], &[10, 10, 6]), Some(10));
    assert_eq!(check_hp_rolls(&[5, 0], &[10, 6]), Some(6));
    assert_eq!(check_hp_rolls(&[5, 9, 9], &[10, 6]), Some(6));
    assert_eq!(check_hp_rolls(&[5, 3, 99], &[10, 6]), None);
}

#[test]
fn optional_features_check_each_slot_and_the_total() {
    let slots = vec![
        FeatureSlot { eligible_ids: strings(&["agonizing_blast", "devils_sight", "mask"]), quota: 2 },
        FeatureSlot { eligible_ids: strings(&["archery"]), quota: 3 },
    ];
    assert!(optional_feature_choices_valid(&strings(&["devils_sight", "archery", "mask"]), &slots));
    assert!(!optional_feature_choices_valid(&strings(&["devils_sight", "archery"]), &slots));
    assert!(!optional_feature_choices_valid(&strings(&["devils_sight", "mask", "agonizing_blast"]), &slots));
    assert!(!optional_feature_choices_valid(&strings(&["devils_sight", "archery", "unknown"]), &slots));
    assert!(optional_feature_choices_valid(&[], &[]));
}

#[test]
fn optional_features_refuse_a_pick_no_slot_offers() {
    let slots = vec![
        FeatureSlot { eligible_ids: strings(&["archery", "defense"]), quota: 1 },
        FeatureSlot { eligible_ids: strings(&["archery"]), quota: 1 },
    ];
    assert!(optional_feature_choices_valid(&strings(&["archery", "defense"]), &slots) == false);
    assert!(!optional_feature_choices_valid(&strings(&["archery", "dueling"]), &slots));
    assert!(optional_feature_choices_valid(&strings(&["archery"]), &vec![FeatureSlot { eligible_ids: strings(&["archery"]), quota: 1 }]));
}
