use lib::asi::{choice_for_kind, choose_increase, set_slot_choice, AsiChoice};
use lib::labels::toggled_sort;
use lib::prereqs::{subclass_unlock_note, unmet_prereq_label, PrereqTerm};
use lib::session::{after_login, character_href, not_found_message, save_target, AfterLogin, SaveTarget};
use lib::sheet::{spell_level_heading, spells_by_level};

fn term(ability: &str, label: &str, minimum: u8) -> PrereqTerm {
    PrereqTerm { ability: ability.to_string(), label: label.to_string(), minimum }
}

fn scores(items: &[(&str, u8)]) -> Vec<(String, u8)> {
    items.iter().map(|(c, s)| (c.to_string(), *s)).collect()
}

fn codes(choice: &AsiChoice) -> Vec<String> {
    match choice {
        AsiChoice::Abilities { codes } => codes.clone(),
        AsiChoice::Feat { .. } => panic!("expected increases"),
    }
}

#[test]
fn prerequisite_warning_lists_the_alternatives() {
    let groups = vec![vec![term("str", "Strength", 13)], vec![term("dex", "Dexterity", 13), term("wis", "Wisdom", 13)]];
    let low = scores(&[("str", 10), ("dex", 14), ("wis", 12)]);
    assert_eq!(
        unmet_prereq_label(&groups, &low, true, true),
        Some("\u{26A0} Requires Strength 13 or Dexterity 13 and Wisdom 13".to_string())
    );
    let ok = scores(&[("str", 10), ("dex", 14), ("wis", 13)]);
    assert_eq!(unmet_prereq_label(&groups, &ok, true, true), None);
}

#[test]
fn prerequisite_warning_is_silent_when_not_applicable() {
    let groups = vec![vec![term("int", "Intelligence", 13)]];
    let low = scores(&[("int", 8)]);
    assert_eq!(unmet_prereq_label(&groups, &low, false, true), None);
    assert_eq!(unmet_prereq_label(&groups, &low, true, false), None);
    assert_eq!(unmet_prereq_label(&vec![], &low, true, true), None);
    assert_eq!(
        unmet_prereq_label(&groups, &scores(&[]), true, true),
        Some("\u{26A0} Requires Intelligence 13".to_string())
    );
}

#[test]
fn subclass_unlock_note_names_the_level() {
    assert_eq!(subclass_unlock_note(&"Martial Archetype".to_string(), 3), "Martial Archetype unlocks at level 3.");
}

#[test]
fn asi_kind_menu_sets_defaults() {
    assert_eq!(codes(&choice_for_kind("abilities").unwrap()), vec!["str".to_string(), "str".to_string()]);
    assert!(matches!(choice_for_kind("feat"), Some(AsiChoice::Feat { feat_id }) if feat_id.is_empty()));
    assert!(choice_for_kind("none").is_none());
}

#[test]
fn choosing_an_increase_replaces_one_position() {
    let current = Some(AsiChoice::Abilities { codes: vec!["dex".to_string(), "con".to_string()] });
    assert_eq!(codes(&choose_increase(&current, 1, "wis".to_string())), vec!["dex".to_string(), "wis".to_string()]);
    let feat = Some(AsiChoice::Feat { feat_id: "alert".to_string() });
    assert_eq!(codes(&choose_increase(&feat, 0, "cha".to_string())), vec!["cha".to_string(), "str".to_string()]);
    assert_eq!(codes(&choose_increase(&None, 1, "int".to_string())), vec!["str".to_string(), "int".to_string()]);
}

#[test]
fn setting_a_slot_past_the_end_changes_nothing() {
    let mut choices: Vec<Option<AsiChoice>> = vec![None];
    set_slot_choice(&mut choices, 3, choice_for_kind("feat"));
    assert_eq!(choices.len(), 1);
    assert!(choices[0].is_none());
    set_slot_choice(&mut choices, 0, choice_for_kind("feat"));
    assert!(matches!(choices[0], Some(AsiChoice::Feat { .. })));
}

#[test]
fn sort_headings_toggle_between_directions() {
    assert_eq!(toggled_sort(2, 0, 1), 0);
    assert_eq!(toggled_sort(0, 0, 1), 1);
    assert_eq!(toggled_sort(1, 0, 1), 0);
}

#[test]
fn spells_are_grouped_by_ascending_level() {
    let groups = spells_by_level(&[3, 0, 1, 0, 3]);
    assert_eq!(groups, vec![(0, vec![1, 3]), (1, vec![2]), (3, vec![0, 4])]);
    assert_eq!(spells_by_level(&[]), Vec::<(u8, Vec<usize>)>::new());
    assert_eq!(spell_level_heading(0), "Cantrips");
    assert_eq!(spell_level_heading(2), "Level 2");
}

#[test]
fn login_waits_for_the_user_lookup() {
    assert!(after_login(false, Some(true)) == AfterLogin::Stay);
    assert!(after_login(true, None) == AfterLogin::Stay);
    assert!(after_login(true, Some(true)) == AfterLogin::GoHome);
    assert!(after_login(true, Some(false)) == AfterLogin::RefetchUser);
}

#[test]
fn saves_create_update_or_refuse() {
    assert!(matches!(save_target("", Some("u1".to_string())), SaveTarget::Create));
    assert!(matches!(save_target("c9", Some("u1".to_string())), SaveTarget::Update { owner } if owner == "u1"));
    assert!(matches!(save_target("c9", None), SaveTarget::NotFound));
    assert_eq!(not_found_message(), "character not found");
}

#[test]
fn character_links() {
    assert_eq!(character_href("abc", false), "/characters/abc");
    assert_eq!(character_href("abc", true), "/characters/abc/edit");
}
