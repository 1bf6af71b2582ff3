use lib::builder::{reconcile_keyed_choices, ClassLevel};
use lib::slots::{asi_slot_keys, expand_grant_slots, picked_names, settle_subclasses};
use lib::sources::proficiency_sources;

fn strings(items: &[&str]) -> Vec<String> {
    items.iter().map(|s| s.to_string()).collect()
}

fn class(id: &str, subclass: Option<&str>, level: u8) -> ClassLevel {
    ClassLevel { class_id: id.to_string(), subclass_id: subclass.map(|s| s.to_string()), level }
}

#[test]
fn proficiency_sources_lists_each_item_once_with_each_source_once() {
    let fixed = vec![
        ("Fighter".to_string(), strings(&["athletics"])),
        ("Acolyte".to_string(), strings(&["insight", "religion", "athletics"])),
        ("Fighter".to_string(), strings(&["athletics"])),
    ];
    let picks = vec![Some("perception".to_string()), None, Some("insight".to_string())];
    let pool_sources = strings(&["Fighter", "Fighter", "Acolyte"]);
    let custom = vec![Some("perception".to_string()), Some("stealth".to_string()), Some("stealth".to_string())];
    let rows = proficiency_sources(&fixed, &picks, &pool_sources, &custom);
    let expected: Vec<(String, Vec<String>)> = vec![
        ("athletics".to_string(), strings(&["Fighter", "Acolyte"])),
        ("insight".to_string(), strings(&["Acolyte"])),
        ("religion".to_string(), strings(&["Acolyte"])),
        ("perception".to_string(), strings(&["Fighter", "Custom"])),
        ("stealth".to_string(), strings(&["Custom"])),
    ];
    assert_eq!(rows, expected);
}

#[test]
fn proficiency_sources_pairs_picks_with_slots_up_to_the_shorter_list() {
    let picks = vec![Some("elvish".to_string()), Some("dwarvish".to_string())];
    let pool_sources = strings(&["Elf"]);
    let rows = proficiency_sources(&[], &picks, &pool_sources, &[]);
    assert_eq!(rows, vec![("elvish".to_string(), strings(&["Elf"]))]);
    assert_eq!(proficiency_sources(&[], &[], &[], &[]), Vec::<(String, Vec<String>)>::new());
}

#[test]
fn asi_slot_keys_list_unlocked_levels_class_by_class() {
    let classes = vec![class("fighter", None, 6), class("wizard", None, 4)];
    let asi_levels = vec![vec![4, 6, 8, 12], vec![4, 8]];
    let keys = asi_slot_keys(&classes, &asi_levels);
    let expected: Vec<(String, u8)> =
        vec![("fighter".to_string(), 4), ("fighter".to_string(), 6), ("wizard".to_string(), 4)];
    assert_eq!(keys, expected);
}

#[test]
fn asi_picks_follow_their_class_when_classes_swap() {
    let before = vec![class("fighter", None, 4), class("wizard", None, 4)];
    let after = vec![class("wizard", None, 4), class("fighter", None, 4)];
    let levels_before = vec![vec![4, 8], vec![4, 8]];
    let levels_after = vec![vec![4, 8], vec![4, 8]];
    let old_keys = asi_slot_keys(&before, &levels_before);
    let new_keys = asi_slot_keys(&after, &levels_after);
    let picks = vec![Some("fighter pick"), Some("wizard pick")];
    assert_eq!(reconcile_keyed_choices(&old_keys, picks.clone(), &new_keys), vec![Some("wizard pick"), Some("fighter pick")]);
    assert_eq!(reconcile_keyed_choices(&old_keys, picks.clone(), &old_keys), picks);
}

#[test]
fn grant_slots_repeat_each_pool_per_pick() {
    let pools = vec![(2, strings(&["guidance", "druidcraft"])), (3, vec![]), (1, strings(&["shield"]))];
    let slots = expand_grant_slots(&pools);
    assert_eq!(
        slots,
        vec![strings(&["guidance", "druidcraft"]), strings(&["guidance", "druidcraft"]), strings(&["shield"])]
    );
    assert_eq!(expand_grant_slots(&[(0, strings(&["x"]))]), Vec::<Vec<String>>::new());
}

#[test]
fn settle_subclasses_keeps_only_unlocked_choices() {
    let classes = vec![
        class("fighter", Some("champion"), 3),
        class("wizard", Some("evocation"), 1),
        class("bard", Some("lore"), 5),
        class("rogue", Some("thief"), 3),
    ];
    let settled = settle_subclasses(classes, &[Some(3), Some(2), None]);
    let subclasses: Vec<Option<String>> = settled.iter().map(|c| c.subclass_id.clone()).collect();
    assert_eq!(subclasses, vec![Some("champion".to_string()), None, None, None]);
    assert_eq!(settled[1].level, 1);
}

#[test]
fn picked_names_look_up_each_id_in_pick_order() {
    let catalog = vec![
        ("fire_bolt".to_string(), "Fire Bolt".to_string()),
        ("light".to_string(), "Light".to_string()),
        ("light".to_string(), "Light (reprint)".to_string()),
    ];
    let names = picked_names(&strings(&["light", "unknown", "fire_bolt"]), &catalog);
    assert_eq!(names, strings(&["Light", "Fire Bolt"]));
}
