use lib::picks::{
    active_tab, all_filled, capped_requirement, chip_disabled, custom_bonus_complete, grant_option_disabled,
    grant_slot_heading, over_quota, over_quota_message, toggle_pick, toggle_selected,
};

fn strings(items: &[&str]) -> Vec<String> {
    items.iter().map(|s| s.to_string()).collect()
}

#[test]
fn toggle_pick_adds_until_the_quota_then_ignores_clicks() {
    let mut picks = strings(&["light"]);
    toggle_pick(&mut picks, &"mage_hand".to_string(), 2);
    assert_eq!(picks, strings(&["light", "mage_hand"]));
    toggle_pick(&mut picks, &"fire_bolt".to_string(), 2);
    assert_eq!(picks, strings(&["light", "mage_hand"]));
}

#[test]
fn toggle_pick_removes_a_picked_id() {
    let mut picks = strings(&["light", "mage_hand", "light"]);
    toggle_pick(&mut picks, &"light".to_string(), 3);
    assert_eq!(picks, strings(&["mage_hand", "light"]));
}

#[test]
fn toggling_twice_restores_the_list() {
    let before = strings(&["light"]);
    let mut picks = before.clone();
    toggle_pick(&mut picks, &"shield".to_string(), 5);
    toggle_pick(&mut picks, &"shield".to_string(), 5);
    assert_eq!(picks, before);
}

#[test]
fn toggle_selected_has_no_quota() {
    let mut shown = strings(&["champion"]);
    toggle_selected(&mut shown, &"battle_master".to_string());
    assert_eq!(shown, strings(&["champion", "battle_master"]));
    toggle_selected(&mut shown, &"champion".to_string());
    assert_eq!(shown, strings(&["battle_master"]));
}

#[test]
fn over_quota_counts_the_excess() {
    assert_eq!(over_quota(5, 3), 2);
    assert_eq!(over_quota(2, 3), 0);
}

#[test]
fn over_quota_message_names_the_excess_twice() {
    assert_eq!(
        over_quota_message(4, 2),
        Some("You have 2 too many selected here \u{2014} deselect 2 before continuing.".to_string())
    );
    assert_eq!(over_quota_message(2, 2), None);
}

#[test]
fn chips_disable_only_unpicked_options_at_quota() {
    assert!(chip_disabled(false, 2, 2));
    assert!(!chip_disabled(true, 2, 2));
    assert!(!chip_disabled(false, 1, 2));
}

#[test]
fn active_tab_clamps_to_the_last_tab() {
    assert_eq!(active_tab(1, 3), 1);
    assert_eq!(active_tab(5, 3), 2);
    assert_eq!(active_tab(4, 0), 0);
}

#[test]
fn capped_requirement_is_the_smaller_count() {
    assert_eq!(capped_requirement(4, 2), 2);
    assert_eq!(capped_requirement(2, 9), 2);
}

#[test]
fn all_filled_needs_one_pick_per_slot() {
    assert!(all_filled(&[Some("a".to_string()), Some("b".to_string())], 2));
    assert!(!all_filled(&[Some("a".to_string()), None], 2));
    assert!(!all_filled(&[Some("a".to_string())], 2));
    assert!(all_filled(&[], 0));
}

#[test]
fn custom_bonus_needs_two_different_abilities() {
    assert!(custom_bonus_complete(&strings(&["str", "dex"])));
    assert!(!custom_bonus_complete(&strings(&["str", "str"])));
    assert!(!custom_bonus_complete(&strings(&["str"])));
}

#[test]
fn grant_option_is_disabled_when_taken_elsewhere() {
    let grants = vec![Some("guidance".to_string()), None];
    let cantrips = strings(&["light"]);
    let spells = strings(&["shield"]);
    assert!(grant_option_disabled(&grants, 1, &"guidance".to_string(), &cantrips, &spells));
    assert!(!grant_option_disabled(&grants, 0, &"guidance".to_string(), &cantrips, &spells));
    assert!(grant_option_disabled(&grants, 1, &"light".to_string(), &cantrips, &spells));
    assert!(grant_option_disabled(&grants, 1, &"shield".to_string(), &cantrips, &spells));
    assert!(!grant_option_disabled(&grants, 1, &"druidcraft".to_string(), &cantrips, &spells));
}

#[test]
fn grant_slot_heading_names_the_kind_of_pick() {
    let source = "Circle of the Land".to_string();
    assert_eq!(grant_slot_heading(&source, Some(0)), "Circle of the Land: choose a cantrip");
    assert_eq!(grant_slot_heading(&source, Some(3)), "Circle of the Land: choose a level 3 spell");
    assert_eq!(grant_slot_heading(&source, None), "Circle of the Land: choose a spell");
}

#[test]
fn dropdown_options_are_disabled_when_already_had() {
    let skills = vec![Some("stealth".to_string()), None];
    let custom = vec![Some("arcana".to_string())];
    let fixed = strings(&["insight"]);
    let id = |s: &str| s.to_string();
    assert!(lib::picks::slot_option_disabled(&id("insight"), 1, &skills, &custom, &fixed));
    assert!(lib::picks::slot_option_disabled(&id("arcana"), 1, &skills, &custom, &fixed));
    assert!(lib::picks::slot_option_disabled(&id("stealth"), 1, &skills, &custom, &fixed));
    assert!(!lib::picks::slot_option_disabled(&id("stealth"), 0, &skills, &custom, &fixed));
    assert!(!lib::picks::slot_option_disabled(&id("history"), 1, &skills, &custom, &fixed));
}

#[test]
fn dropdown_edits_set_clear_and_remove_slots() {
    let mut slots = vec![Some("a".to_string()), Some("b".to_string())];
    lib::picks::set_slot_pick(&mut slots, 0, String::new());
    assert_eq!(slots, vec![None, Some("b".to_string())]);
    lib::picks::set_slot_pick(&mut slots, 0, "c".to_string());
    lib::picks::set_slot_pick(&mut slots, 5, "z".to_string());
    assert_eq!(slots, vec![Some("c".to_string()), Some("b".to_string())]);
    lib::picks::remove_slot(&mut slots, 0);
    lib::picks::remove_slot(&mut slots, 4);
    assert_eq!(slots, vec![Some("b".to_string())]);
}

#[test]
fn removing_a_custom_entry_drops_every_copy() {
    let entries = strings(&["Thieves' Tools", "Lute", "Thieves' Tools"]);
    assert_eq!(lib::picks::remove_custom_entry(&entries, &"Thieves' Tools".to_string()), strings(&["Lute"]));
}

#[test]
fn expertise_offers_each_proficient_skill_once_in_order() {
    let fixed = strings(&["stealth", "insight"]);
    let picks = vec![Some("arcana".to_string()), None, Some("insight".to_string())];
    let custom = vec![Some("athletics".to_string()), Some("Zoology".to_string())];
    assert_eq!(
        lib::sorted::proficient_skills(&fixed, &picks, &custom),
        strings(&["Zoology", "arcana", "athletics", "insight", "stealth"])
    );
    assert_eq!(lib::sorted::proficient_skills(&vec![], &[], &[]), Vec::<String>::new());
}

#[test]
fn expertise_order_matches_string_order() {
    let fixed = strings(&["b", "ab", "a", "é", "z", "abc"]);
    let mut expected = fixed.clone();
    expected.sort();
    expected.dedup();
    assert_eq!(lib::sorted::proficient_skills(&fixed, &[], &[]), expected);
}
