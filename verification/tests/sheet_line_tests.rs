use lib::sheet::{
    armor_class_label, card_subtitle, casting_line, darkvision_label, dedupe_keep_first, features_cell,
    hit_die_label, level_badge, modifier_label, saving_throw_modifier, sheet_subtitle, skill_marker,
    skill_modifier, slot_lines, spell_line, spellcasting_label, table_cell, total_level_label, ClassLine,
    FeatureEntry,
};

fn strings(items: &[&str]) -> Vec<String> {
    items.iter().map(|s| s.to_string()).collect()
}

#[test]
fn modifiers_always_show_a_sign() {
    assert_eq!(modifier_label(3), "+3");
    assert_eq!(modifier_label(0), "+0");
    assert_eq!(modifier_label(-1), "-1");
}

#[test]
fn level_labels_pad_to_two_digits() {
    assert_eq!(level_badge(5), "LV 05");
    assert_eq!(level_badge(12), "LV 12");
    assert_eq!(total_level_label(7), "TOTAL LEVEL 07 / 20");
}

#[test]
fn small_stat_labels() {
    assert_eq!(hit_die_label(10), "d10");
    assert_eq!(armor_class_label(3), "13");
    assert_eq!(armor_class_label(-1), "9");
    assert_eq!(darkvision_label(60), "60 ft.");
}

#[test]
fn saving_throws_add_proficiency_when_proficient() {
    assert_eq!(saving_throw_modifier(2, 3, true), 5);
    assert_eq!(saving_throw_modifier(-1, 3, false), -1);
}

#[test]
fn skills_add_proficiency_and_expertise() {
    assert_eq!(skill_modifier(1, 2, false, false), 1);
    assert_eq!(skill_modifier(1, 2, true, false), 3);
    assert_eq!(skill_modifier(1, 2, true, true), 5);
    assert_eq!(skill_marker(true, true), " \u{2605}");
    assert_eq!(skill_marker(true, false), " \u{25CF}");
    assert_eq!(skill_marker(false, false), "");
}

#[test]
fn sheet_subtitle_for_a_single_class_lists_subclass_separately() {
    let classes = vec![ClassLine { level: 5, name: "Fighter".to_string(), subclass_short_name: Some("Champion".to_string()) }];
    assert_eq!(
        sheet_subtitle(5, &classes, &Some("Elf".to_string()), &Some("Acolyte".to_string())),
        "Level 5 Fighter · Champion · Elf · Acolyte"
    );
}

#[test]
fn sheet_subtitle_for_several_classes_joins_segments() {
    let classes = vec![
        ClassLine { level: 3, name: "Fighter".to_string(), subclass_short_name: Some("Champion".to_string()) },
        ClassLine { level: 2, name: "Wizard".to_string(), subclass_short_name: None },
    ];
    assert_eq!(
        sheet_subtitle(5, &classes, &None, &Some("Sage".to_string())),
        "Level 3 Fighter (Champion) / Level 2 Wizard · Sage"
    );
    assert_eq!(sheet_subtitle(1, &vec![], &None, &None), "Level 1 Unknown class");
}

#[test]
fn card_subtitle_uses_placeholders() {
    assert_eq!(card_subtitle(4, &Some("Rogue".to_string()), &Some("Halfling".to_string())), "Level 4 Rogue · Halfling");
    assert_eq!(card_subtitle(1, &None, &None), "Level 1 Unknown class · Unknown species");
}

#[test]
fn dedupe_keeps_first_occurrences() {
    let items = strings(&["Light armor", "Shields", "Light armor", "Simple weapons", "Shields"]);
    assert_eq!(dedupe_keep_first(items), strings(&["Light armor", "Shields", "Simple weapons"]));
}

#[test]
fn slot_lines_skip_empty_levels() {
    assert_eq!(slot_lines(&[4, 3, 0, 1]), strings(&["Level 1: 4", "Level 2: 3", "Level 4: 1"]));
    assert_eq!(slot_lines(&[]), Vec::<String>::new());
}

#[test]
fn spell_lines() {
    assert_eq!(spell_line(&"Fireball".to_string(), 3, &"Evocation".to_string(), false), "Fireball (L3 Evocation)");
    assert_eq!(spell_line(&"Light".to_string(), 0, &"Evocation".to_string(), true), "Light (Cantrip)");
    assert_eq!(spell_line(&"Light".to_string(), 0, &"Evocation".to_string(), false), "Light (L0 Evocation)");
}

#[test]
fn casting_lines() {
    assert_eq!(casting_line(13, 5, &"Wizard".to_string(), false), "Save DC 13 · Attack +5");
    assert_eq!(casting_line(12, -1, &"Cleric".to_string(), true), "Cleric: Save DC 12 · Attack -1");
}

#[test]
fn spellcasting_labels_name_the_caster_kind() {
    let int = "Intelligence".to_string();
    assert_eq!(spellcasting_label(&int, &Some("full".to_string())), "Intelligence (full caster)");
    assert_eq!(spellcasting_label(&int, &Some("artificer".to_string())), "Intelligence (half caster)");
    assert_eq!(spellcasting_label(&int, &Some("third".to_string())), "Intelligence (third caster)");
    assert_eq!(spellcasting_label(&int, &Some("pact".to_string())), "Intelligence (pact magic)");
    assert_eq!(spellcasting_label(&int, &Some("other".to_string())), "Intelligence");
    assert_eq!(spellcasting_label(&int, &None), "Intelligence");
}

#[test]
fn features_cell_lists_names_at_a_level() {
    let features = vec![
        FeatureEntry { name: "Fighting Style".to_string(), level: 1 },
        FeatureEntry { name: "Second Wind".to_string(), level: 1 },
        FeatureEntry { name: "Action Surge".to_string(), level: 2 },
    ];
    assert_eq!(features_cell(&features, 1), "Fighting Style, Second Wind");
    assert_eq!(features_cell(&features, 3), "\u{2014}");
}

#[test]
fn table_cells_fall_back_to_a_dash() {
    let rows = vec![strings(&["2", "—"]), strings(&["3", "1"])];
    assert_eq!(table_cell(&rows, 2, 1), "1");
    assert_eq!(table_cell(&rows, 3, 0), "\u{2014}");
    assert_eq!(table_cell(&rows, 1, 5), "\u{2014}");
}
