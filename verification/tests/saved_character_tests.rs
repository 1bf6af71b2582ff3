use lib::picks::{add_custom_entry, flatten_picks, remove_custom_entry};
use lib::progress::trimmed;

fn strings(items: &[&str]) -> Vec<String> {
    items.iter().map(|s| s.to_string()).collect()
}

#[test]
fn saved_name_is_trimmed_on_both_ends() {
    assert_eq!(trimmed("  Thorin Oakenshield \t\n"), "Thorin Oakenshield");
    assert_eq!(trimmed("Bilbo"), "Bilbo");
    assert_eq!(trimmed("   "), "");
    assert_eq!(trimmed(""), "");
    assert_eq!(trimmed("\u{3000}Mira\u{a0}"), "Mira");
}

#[test]
fn inner_whitespace_of_a_name_is_kept() {
    assert_eq!(trimmed(" Mira  the   Bold "), "Mira  the   Bold");
}

#[test]
fn flattened_picks_skip_empty_slots_and_keep_order() {
    let slots = vec![Some("stealth".to_string()), None, Some("arcana".to_string()), None];
    assert_eq!(flatten_picks(&slots), strings(&["stealth", "arcana"]));
    assert_eq!(flatten_picks(&[None, None]), Vec::<String>::new());
    assert_eq!(flatten_picks(&[]), Vec::<String>::new());
}

#[test]
fn choosing_a_custom_entry_appends_it_and_an_empty_choice_adds_nothing() {
    let mut entries = strings(&["elvish"]);
    add_custom_entry(&mut entries, "dwarvish".to_string());
    assert_eq!(entries, strings(&["elvish", "dwarvish"]));
    add_custom_entry(&mut entries, String::new());
    assert_eq!(entries, strings(&["elvish", "dwarvish"]));
}

#[test]
fn custom_entries_stay_free_of_duplicates_through_add_and_remove() {
    let mut entries = strings(&["thieves' tools"]);
    add_custom_entry(&mut entries, "herbalism kit".to_string());
    let entries = remove_custom_entry(&entries, &"thieves' tools".to_string());
    assert_eq!(entries, strings(&["herbalism kit"]));
    let mut entries = entries;
    add_custom_entry(&mut entries, "thieves' tools".to_string());
    assert_eq!(entries, strings(&["herbalism kit", "thieves' tools"]));
}
