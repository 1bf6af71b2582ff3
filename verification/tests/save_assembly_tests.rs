use lib::save::{check_save, save_checks, ClassFacts, OfferedSlots, SubmittedPicks};
use lib::validation::AbilityBonusSource;

fn strings(items: &[&str]) -> Vec<String> {
    items.iter().map(|s| s.to_string()).collect()
}

fn fighter_wizard() -> Vec<ClassFacts> {
    vec![
        ClassFacts {
            class_name: "Fighter".to_string(),
            level: 3,
            hit_die: 10,
            subclass_unlock: Some(3),
            has_active_subclass: true,
            asi_levels: vec![4, 6, 8],
            cantrip_pool: vec![],
            cantrips_known: 0,
            spell_pool: vec![],
            spells_known: 0,
        },
        ClassFacts {
            class_name: "Wizard".to_string(),
            level: 2,
            hit_die: 6,
            subclass_unlock: Some(2),
            has_active_subclass: false,
            asi_levels: vec![4, 8],
            cantrip_pool: strings(&["light", "mage_hand"]),
            cantrips_known: 3,
            spell_pool: strings(&["shield", "sleep", "fog_cloud"]),
            spells_known: 2,
        },
    ]
}

fn picks() -> SubmittedPicks {
    SubmittedPicks {
        hp_rolled: true,
        hp_rolls: vec![7, 3, 4, 2],
        asi_choices: vec![],
        skill_choices: vec![],
        custom_skills: vec![],
        expertise_choices: vec![],
        tool_choices: vec![],
        language_choices: vec![],
        bonus_source: AbilityBonusSource::Custom,
        species_ability_choices: vec![],
        custom_ability_choices: strings(&["str", "con"]),
        cantrip_choices: strings(&["light", "mage_hand"]),
        spell_choices: strings(&["shield", "sleep"]),
        spell_grant_choices: vec![],
        optional_feature_choices: vec![],
    }
}

fn offered() -> OfferedSlots {
    OfferedSlots {
        skill_pools: vec![],
        fixed_skills: vec![],
        expertise_slots: 0,
        tool_pools: vec![],
        custom_tools_known: true,
        language_pools: vec![],
        custom_languages_known: true,
        species_grants: vec![],
        free_choice: false,
        spell_grant_pools: vec![(2, strings(&["bless"])), (1, vec![])],
        feature_types_active: false,
        feature_slots: vec![],
        prereq_violations: vec![],
    }
}

#[test]
fn save_checks_derive_gates_dice_slots_and_capped_budgets() {
    let c = save_checks(&fighter_wizard(), picks(), offered());
    let gates: Vec<(String, bool, bool)> =
        c.gates.iter().map(|g| (g.class_name.clone(), g.unlocked, g.has_subclass)).collect();
    assert_eq!(gates, vec![("Fighter".to_string(), true, true), ("Wizard".to_string(), true, false)]);
    assert_eq!(c.roll_dice, vec![10, 10, 6, 6]);
    assert_eq!(c.asi_slots, 0);
    assert_eq!(c.asi_choices, 0);
    assert_eq!(c.cantrip_pools, vec![vec![], strings(&["light", "mage_hand"])]);
    assert_eq!(c.cantrip_required, vec![0, 2]);
    assert_eq!(c.spell_required, vec![0, 2]);
    assert_eq!(c.spell_grant_slots, vec![strings(&["bless"]), strings(&["bless"])]);
    assert_eq!(c.hp_rolls, vec![7, 3, 4, 2]);
}

#[test]
fn assembled_checks_refuse_the_missing_subclass_first() {
    let e = check_save(&save_checks(&fighter_wizard(), picks(), offered())).err().map(|e| e.message());
    assert_eq!(e, Some("A subclass must be selected for Wizard at this level".to_string()));
}

#[test]
fn asi_slots_count_levels_reached_in_each_class() {
    let mut classes = fighter_wizard();
    classes[0].level = 8;
    classes[1].level = 4;
    classes[1].has_active_subclass = true;
    let c = save_checks(&classes, picks(), offered());
    assert_eq!(c.asi_slots, 4);
}
