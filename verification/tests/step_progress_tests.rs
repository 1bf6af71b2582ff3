use lib::abilities::{bonus_candidates, custom_option_disabled, point_buy_raise_disabled};
use lib::asi::AsiChoice;
use lib::progress::{is_blank, step_complete, ClassProgress, StepState};
use lib::validation::{AbilityBonusSource, FeatureSlot};

fn strings(items: &[&str]) -> Vec<String> {
    items.iter().map(|s| s.to_string()).collect()
}

fn some(items: &[&str]) -> Vec<Option<String>> {
    items.iter().map(|s| Some(s.to_string())).collect()
}

fn complete_state() -> StepState {
    StepState {
        name: "Elowen".to_string(),
        classes: vec![ClassProgress { subclass_unlocked: true, subclass_chosen: true }],
        feature_slots: vec![FeatureSlot { eligible_ids: strings(&["archery", "defense"]), quota: 1 }],
        optional_feature_choices: strings(&["archery"]),
        species_chosen: true,
        background_chosen: true,
        skill_choices: some(&["athletics", "insight"]),
        skill_slots: 2,
        expertise_choices: vec![],
        expertise_slots: 0,
        language_choices: some(&["Elvish"]),
        language_slots: 1,
        tool_choices: vec![],
        tool_slots: 0,
        point_buy: true,
        point_buy_spent: 27,
        point_buy_budget: 27,
        bonus_source: AbilityBonusSource::Custom,
        species_choice_count: 0,
        species_ability_choices: vec![],
        custom_ability_choices: strings(&["str", "con"]),
        cantrips_chosen: 3,
        cantrips_required: vec![2, 1],
        spells_chosen: 4,
        spells_required: vec![4, 0],
        spell_grant_choices: some(&["bless"]),
        spell_grant_slots: 1,
        asi_choices: vec![
            Some(AsiChoice::Feat { feat_id: "alert".to_string() }),
            Some(AsiChoice::Abilities { codes: strings(&["str", "str"]) }),
        ],
        asi_slots: 2,
    }
}

#[test]
fn every_step_of_a_finished_build_is_complete() {
    let st = complete_state();
    for n in 0..12 {
        assert!(step_complete(n, &st), "step {n}");
    }
}

#[test]
fn blank_names_do_not_count() {
    let mut st = complete_state();
    st.name = " \t\u{3000} ".to_string();
    assert!(!step_complete(0, &st));
    assert!(is_blank(""));
    assert!(!is_blank("  a "));
}

#[test]
fn class_step_needs_a_class_and_unlocked_subclasses() {
    let mut st = complete_state();
    st.classes.push(ClassProgress { subclass_unlocked: false, subclass_chosen: false });
    assert!(step_complete(1, &st));
    st.classes.push(ClassProgress { subclass_unlocked: true, subclass_chosen: false });
    assert!(!step_complete(1, &st));
    st.classes.clear();
    assert!(!step_complete(1, &st));
}

#[test]
fn feature_step_checks_each_slot() {
    let mut st = complete_state();
    st.optional_feature_choices = strings(&["archery", "defense"]);
    assert!(!step_complete(2, &st));
    st.optional_feature_choices = vec![];
    assert!(!step_complete(2, &st));
}

#[test]
fn slot_steps_need_every_slot_filled() {
    let mut st = complete_state();
    st.skill_choices = vec![Some("athletics".to_string()), None];
    assert!(!step_complete(5, &st));
    st = complete_state();
    st.expertise_slots = 1;
    assert!(!step_complete(5, &st));
    st = complete_state();
    st.language_slots = 2;
    assert!(!step_complete(6, &st));
    st = complete_state();
    st.tool_choices = some(&["Lute"]);
    assert!(!step_complete(7, &st));
    st = complete_state();
    st.species_chosen = false;
    st.background_chosen = false;
    assert!(!step_complete(3, &st));
    assert!(!step_complete(4, &st));
}

#[test]
fn ability_step_checks_budget_and_bonus_picks() {
    let mut st = complete_state();
    st.point_buy_spent = 28;
    assert!(!step_complete(8, &st));
    st.point_buy = false;
    assert!(step_complete(8, &st));
    st.custom_ability_choices = strings(&["dex", "dex"]);
    assert!(!step_complete(8, &st));
    st.bonus_source = AbilityBonusSource::Species;
    st.species_choice_count = 2;
    st.species_ability_choices = strings(&["dex"]);
    assert!(!step_complete(8, &st));
    st.species_ability_choices = strings(&["dex", "wis"]);
    assert!(step_complete(8, &st));
}

#[test]
fn spell_step_compares_with_class_totals() {
    let mut st = complete_state();
    st.cantrips_chosen = 2;
    assert!(!step_complete(9, &st));
    st = complete_state();
    st.spells_required = vec![usize::MAX, 5];
    assert!(!step_complete(9, &st));
    st = complete_state();
    st.spell_grant_choices = vec![None];
    assert!(!step_complete(9, &st));
}

#[test]
fn asi_step_needs_a_feat_or_two_abilities_per_slot() {
    let mut st = complete_state();
    st.asi_choices[0] = Some(AsiChoice::Feat { feat_id: "  ".to_string() });
    assert!(!step_complete(10, &st));
    st.asi_choices[0] = Some(AsiChoice::Abilities { codes: strings(&["str"]) });
    assert!(!step_complete(10, &st));
    st.asi_choices[0] = Some(AsiChoice::Abilities { codes: strings(&["str", "luck"]) });
    assert!(!step_complete(10, &st));
    st.asi_choices[0] = None;
    assert!(!step_complete(10, &st));
    st.asi_choices.pop();
    assert!(!step_complete(10, &st));
}

#[test]
fn bonus_candidates_follow_the_grant() {
    assert_eq!(bonus_candidates(&strings(&["wis", "str"]), false), vec!["str", "wis"]);
    assert_eq!(bonus_candidates(&vec![], true), vec!["str", "dex", "con", "int", "wis", "cha"]);
    assert_eq!(bonus_candidates(&vec![], false), Vec::<&str>::new());
}

#[test]
fn custom_options_are_disabled_when_the_other_slot_holds_them() {
    let codes = strings(&["str", "dex"]);
    assert!(custom_option_disabled(&codes, 0, "dex"));
    assert!(!custom_option_disabled(&codes, 1, "dex"));
    assert!(!custom_option_disabled(&codes, 0, "wis"));
}

#[test]
fn point_buy_raise_respects_table_and_budget() {
    assert!(point_buy_raise_disabled(20, Some(7), None, 27));
    assert!(!point_buy_raise_disabled(20, Some(5), Some(7), 27));
    assert!(point_buy_raise_disabled(26, Some(5), Some(7), 27));
    assert!(!point_buy_raise_disabled(0, None, Some(0), 27));
}
