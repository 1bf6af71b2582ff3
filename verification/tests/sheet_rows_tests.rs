use lib::asi::AsiChoice;
use lib::builder::ClassLevel;
use lib::sheet::{
    asi_increase_rows, asi_line, primary_saves, resolve_classes, saving_throws, sheet_asi_keys, skill_flags,
};

fn strings(items: &[&str]) -> Vec<String> {
    items.iter().map(|s| s.to_string()).collect()
}

fn class(id: &str, level: u8) -> ClassLevel {
    ClassLevel { class_id: id.to_string(), subclass_id: None, level }
}

#[test]
fn saving_throw_proficiency_comes_from_the_primary_class_only() {
    let classes = vec![class("fighter", 5), class("wizard", 2)];
    let detail_ids = strings(&["wizard", "fighter"]);
    let detail_saves = vec![strings(&["int", "wis"]), strings(&["str", "con"])];
    let saves = primary_saves(&classes, &detail_ids, &detail_saves);
    assert_eq!(saves, strings(&["str", "con"]));
    let rows = saving_throws(&saves, &[3, 1, 2, 0, -1, 0], 2);
    let codes: Vec<&str> = rows.iter().map(|r| r.0).collect();
    assert_eq!(codes, vec!["str", "dex", "con", "int", "wis", "cha"]);
    let values: Vec<(i16, bool)> = rows.iter().map(|r| (r.1, r.2)).collect();
    assert_eq!(values, vec![(5, true), (1, false), (4, true), (0, false), (-1, false), (0, false)]);
}

#[test]
fn saving_throws_without_a_class_have_no_proficiency() {
    let rows = saving_throws(&Vec::new(), &[0, 0, 0, 0, 0, 0], 2);
    assert!(rows.iter().all(|r| !r.2 && r.1 == 0));
}

#[test]
fn skill_flags_combine_fixed_chosen_and_custom_proficiencies() {
    let fixed = strings(&["insight"]);
    let chosen = strings(&["stealth"]);
    let custom = strings(&["arcana"]);
    let expertise = strings(&["stealth"]);
    assert_eq!(skill_flags(&"insight".to_string(), &fixed, &chosen, &custom, &expertise), (true, false));
    assert_eq!(skill_flags(&"stealth".to_string(), &fixed, &chosen, &custom, &expertise), (true, true));
    assert_eq!(skill_flags(&"arcana".to_string(), &fixed, &chosen, &custom, &expertise), (true, false));
    assert_eq!(skill_flags(&"history".to_string(), &fixed, &chosen, &custom, &expertise), (false, false));
}

#[test]
fn asi_choices_map_to_their_class_slots_in_order() {
    let keys = vec![("fighter".to_string(), 4u8), ("fighter".to_string(), 6u8), ("wizard".to_string(), 4u8)];
    let choices = vec![
        Some(AsiChoice::Abilities { codes: strings(&["str", "con"]) }),
        Some(AsiChoice::Feat { feat_id: "alert".to_string() }),
        Some(AsiChoice::Abilities { codes: strings(&["int", "int"]) }),
    ];
    let rows = asi_increase_rows(&keys, &choices);
    assert_eq!(
        rows,
        vec![
            ("fighter".to_string(), 4, strings(&["str", "con"])),
            ("wizard".to_string(), 4, strings(&["int", "int"])),
        ]
    );
}

#[test]
fn asi_choices_beyond_the_slots_are_ignored() {
    let keys = vec![("rogue".to_string(), 4u8)];
    let choices = vec![None, Some(AsiChoice::Abilities { codes: strings(&["dex", "dex"]) })];
    assert!(asi_increase_rows(&keys, &choices).is_empty());
}

#[test]
fn asi_lines_name_the_class_only_when_multiclassed() {
    let labels = strings(&["Strength", "Constitution"]);
    assert_eq!(asi_line(&"Fighter".to_string(), true, 4, &labels), "Fighter level 4: +1 Strength, +1 Constitution");
    assert_eq!(asi_line(&"Fighter".to_string(), false, 8, &labels), "Level 8: +1 Strength, +1 Constitution");
}

#[test]
fn a_dangling_first_class_hands_the_saves_to_the_next_resolved_class() {
    let classes = vec![class("artificer", 3), class("rogue", 2), class("fighter", 1)];
    let detail_ids = strings(&["fighter", "rogue"]);
    assert_eq!(resolve_classes(&classes, &detail_ids), vec![(1, 1), (2, 0)]);
    let detail_saves = vec![strings(&["str", "con"]), strings(&["dex", "int"])];
    assert_eq!(primary_saves(&classes, &detail_ids, &detail_saves), strings(&["dex", "int"]));
    assert!(primary_saves(&[class("artificer", 3)], &detail_ids, &detail_saves).is_empty());
}

#[test]
fn a_dangling_class_has_no_asi_slots_and_takes_no_choice() {
    let classes = vec![class("artificer", 8), class("fighter", 6)];
    let detail_ids = strings(&["fighter"]);
    let keys = sheet_asi_keys(&classes, &detail_ids, &[vec![4, 6, 8, 12]]);
    assert_eq!(keys, vec![("fighter".to_string(), 4), ("fighter".to_string(), 6)]);
    let choices = vec![
        Some(AsiChoice::Abilities { codes: strings(&["str", "str"]) }),
        Some(AsiChoice::Abilities { codes: strings(&["con", "dex"]) }),
    ];
    let rows = asi_increase_rows(&keys, &choices);
    assert_eq!(
        rows,
        vec![
            ("fighter".to_string(), 4, strings(&["str", "str"])),
            ("fighter".to_string(), 6, strings(&["con", "dex"])),
        ]
    );
}

#[test]
fn a_repeated_asi_key_shows_the_choice_last_given_to_it() {
    let keys = vec![("fighter".to_string(), 4u8), ("fighter".to_string(), 4u8)];
    let choices = vec![
        Some(AsiChoice::Abilities { codes: strings(&["str", "str"]) }),
        Some(AsiChoice::Abilities { codes: strings(&["dex", "dex"]) }),
    ];
    let rows = asi_increase_rows(&keys, &choices);
    assert_eq!(
        rows,
        vec![
            ("fighter".to_string(), 4, strings(&["dex", "dex"])),
            ("fighter".to_string(), 4, strings(&["dex", "dex"])),
        ]
    );
}
