use lib::builder::{
    hp_roll_keys, incomplete_steps, next_step, prev_step, reconcile_expertise, reconcile_hp_rolls,
    reconcile_keyed_choices, reconcile_pool_choices, reconcile_species_choices, retain_in, step_lock_reason,
    ClassLevel, LockFacts,
};

fn strings(items: &[&str]) -> Vec<String> {
    items.iter().map(|s| s.to_string()).collect()
}

fn class(id: &str, level: u8) -> ClassLevel {
    ClassLevel { class_id: id.to_string(), subclass_id: None, level }
}

fn keys(items: &[(&str, u8)]) -> Vec<(String, u8)> {
    items.iter().map(|(id, l)| (id.to_string(), *l)).collect()
}

fn no_locks() -> LockFacts {
    LockFacts {
        no_optional_features: false,
        no_skill_choices: false,
        no_expertise: false,
        no_language_choices: false,
        no_tool_choices: false,
        no_spellcasting: false,
        no_asi: false,
    }
}

#[test]
fn next_step_skips_locked_steps() {
    let mut locked = vec![false; 12];
    locked[2] = true;
    assert_eq!(next_step(1, &locked), 3);
    assert_eq!(next_step(0, &locked), 1);
}

#[test]
fn next_step_stays_on_last_step_when_everything_after_is_locked() {
    let mut locked = vec![false; 12];
    for i in 9..12 {
        locked[i] = true;
    }
    assert_eq!(next_step(8, &locked), 11);
    assert_eq!(next_step(11, &locked), 11);
}

#[test]
fn prev_step_skips_locked_steps_and_stops_at_the_first() {
    let mut locked = vec![false; 12];
    locked[2] = true;
    assert_eq!(prev_step(3, &locked), 1);
    assert_eq!(prev_step(0, &locked), 0);
    let all_locked = vec![true; 12];
    assert_eq!(prev_step(5, &all_locked), 0);
}

#[test]
fn next_then_back_returns_to_the_starting_step() {
    let mut locked = vec![false; 12];
    locked[6] = true;
    locked[7] = true;
    let next = next_step(5, &locked);
    assert_eq!(next, 8);
    assert_eq!(prev_step(next, &locked), 5);
}

#[test]
fn step_lock_reason_names_why_each_step_is_locked() {
    let facts = LockFacts {
        no_optional_features: true,
        no_skill_choices: true,
        no_expertise: true,
        no_language_choices: true,
        no_tool_choices: true,
        no_spellcasting: true,
        no_asi: true,
    };
    assert_eq!(step_lock_reason(2, &facts), Some("No optional features to choose for this class/subclass yet."));
    assert_eq!(
        step_lock_reason(5, &facts),
        Some("No skill or expertise choices to make yet \u{2014} pick a class and background first.")
    );
    assert_eq!(
        step_lock_reason(6, &facts),
        Some("No language choices to make yet \u{2014} pick a background and species first.")
    );
    assert_eq!(
        step_lock_reason(7, &facts),
        Some("No tool choices to make yet \u{2014} pick a class and background first.")
    );
    assert_eq!(step_lock_reason(9, &facts), Some("This build doesn't grant spellcasting."));
    assert_eq!(step_lock_reason(10, &facts), Some("No Ability Score Improvements unlocked yet."));
    assert_eq!(step_lock_reason(0, &facts), None);
    assert_eq!(step_lock_reason(11, &facts), None);
}

#[test]
fn skills_step_stays_open_while_expertise_is_left() {
    let mut facts = no_locks();
    facts.no_skill_choices = true;
    assert_eq!(step_lock_reason(5, &facts), None);
    assert_eq!(step_lock_reason(2, &no_locks()), None);
}

#[test]
fn incomplete_steps_lists_unlocked_unfinished_steps_before_review() {
    let mut locked = vec![false; 12];
    let mut complete = vec![true; 12];
    locked[2] = true;
    complete[2] = false;
    complete[4] = false;
    complete[9] = false;
    complete[11] = false;
    assert_eq!(incomplete_steps(&locked, &complete), vec![4, 9]);
    assert_eq!(incomplete_steps(&locked, &vec![true; 12]), Vec::<usize>::new());
}

#[test]
fn hp_roll_keys_skip_the_primary_class_first_level() {
    let classes = vec![class("fighter", 3), class("wizard", 2)];
    assert_eq!(hp_roll_keys(&classes), keys(&[("fighter", 2), ("fighter", 3), ("wizard", 1), ("wizard", 2)]));
    assert_eq!(hp_roll_keys(&[class("rogue", 1)]), Vec::<(String, u8)>::new());
}

#[test]
fn reconcile_hp_rolls_follows_each_class_level_when_classes_are_reordered() {
    let old_classes = vec![class("fighter", 3), class("wizard", 2)];
    let new_classes = vec![class("wizard", 2), class("fighter", 3)];
    let old_keys = hp_roll_keys(&old_classes);
    let new_keys = hp_roll_keys(&new_classes);
    assert_eq!(new_keys, keys(&[("wizard", 2), ("fighter", 1), ("fighter", 2), ("fighter", 3)]));
    let rolls = vec![5, 7, 3, 4];
    assert_eq!(reconcile_hp_rolls(&old_keys, &rolls, &new_keys), vec![4, 0, 5, 7]);
}

#[test]
fn reconcile_hp_rolls_keeps_every_roll_of_an_unchanged_layout() {
    let layout = hp_roll_keys(&[class("cleric", 4)]);
    let rolls = vec![6, 2, 8];
    assert_eq!(reconcile_hp_rolls(&layout, &rolls, &layout), rolls);
}

#[test]
fn reconcile_pool_choices_clears_stale_and_redundant_picks() {
    let choices = vec![Some("athletics".to_string()), Some("stealth".to_string()), Some("arcana".to_string())];
    let pools = vec![strings(&["athletics", "acrobatics"]), strings(&["perception"]), strings(&["arcana"])];
    let fixed = strings(&["arcana"]);
    let kept = reconcile_pool_choices(choices, &pools, &fixed);
    assert_eq!(kept, vec![Some("athletics".to_string()), None, None]);
}

#[test]
fn reconcile_pool_choices_pads_new_slots_and_is_idempotent() {
    let pools = vec![strings(&["history"]), strings(&["insight"])];
    let once = reconcile_pool_choices(vec![Some("history".to_string())], &pools, &[]);
    assert_eq!(once, vec![Some("history".to_string()), None]);
    let twice = reconcile_pool_choices(once.clone(), &pools, &[]);
    assert_eq!(twice, once);
}

#[test]
fn reconcile_expertise_resizes_and_drops_lost_proficiencies() {
    let choices = vec![Some("stealth".to_string()), Some("history".to_string()), Some("arcana".to_string())];
    let proficient = strings(&["stealth", "arcana"]);
    assert_eq!(reconcile_expertise(choices, 2, &proficient), vec![Some("stealth".to_string()), None]);
    assert_eq!(reconcile_expertise(vec![], 1, &proficient), vec![None]);
}

#[test]
fn retain_in_keeps_order_of_surviving_picks() {
    let choices = strings(&["light", "fire_bolt", "mage_hand"]);
    assert_eq!(retain_in(choices, &strings(&["mage_hand", "light"])), strings(&["light", "mage_hand"]));
}

#[test]
fn reconcile_species_choices_filters_then_truncates() {
    let choices = strings(&["str", "wis", "dex"]);
    assert_eq!(reconcile_species_choices(choices.clone(), 1, &strings(&["dex", "wis"]), false), strings(&["wis"]));
    assert_eq!(reconcile_species_choices(choices.clone(), 2, &[], true), strings(&["str", "wis"]));
    assert_eq!(reconcile_species_choices(choices, 0, &[], true), Vec::<String>::new());
}

#[test]
fn reconcile_keyed_choices_moves_picks_with_their_class_level() {
    let old_keys = keys(&[("fighter", 4), ("wizard", 4)]);
    let old = vec![Some("str"), Some("int")];
    let new_keys = keys(&[("wizard", 4), ("fighter", 4), ("fighter", 6)]);
    assert_eq!(reconcile_keyed_choices(&old_keys, old, &new_keys), vec![Some("int"), Some("str"), None]);
}

#[test]
fn reconcile_keyed_choices_hands_a_repeated_key_its_pick_once() {
    let old_keys = keys(&[("fighter", 4)]);
    let new_keys = keys(&[("fighter", 4), ("fighter", 4)]);
    assert_eq!(reconcile_keyed_choices(&old_keys, vec![Some(1)], &new_keys), vec![Some(1), None]);
}
