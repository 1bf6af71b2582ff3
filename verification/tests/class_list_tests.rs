use lib::builder::ClassLevel;
use lib::classes::{add_class, can_add_class, can_raise_level, change_level, remove_class, set_subclass, total_level};

fn class(id: &str, level: u8) -> ClassLevel {
    ClassLevel { class_id: id.to_string(), subclass_id: None, level }
}

fn summary(classes: &[ClassLevel]) -> Vec<(String, Option<String>, u8)> {
    classes.iter().map(|c| (c.class_id.clone(), c.subclass_id.clone(), c.level)).collect()
}

#[test]
fn total_level_sums_class_levels() {
    assert_eq!(total_level(&[class("fighter", 5), class("wizard", 3)]), 8);
    assert_eq!(total_level(&[]), 0);
}

#[test]
fn total_level_saturates_instead_of_wrapping() {
    assert_eq!(total_level(&[class("a", 200), class("b", 100)]), 255);
}

#[test]
fn can_add_class_refuses_duplicates_and_full_builds() {
    let classes = vec![class("fighter", 5)];
    assert!(can_add_class(&classes, &"wizard".to_string()));
    assert!(!can_add_class(&classes, &"fighter".to_string()));
    assert!(!can_add_class(&[class("fighter", 20)], &"wizard".to_string()));
}

#[test]
fn add_class_appends_a_first_level_class() {
    let mut classes = vec![class("fighter", 5)];
    add_class(&mut classes, "wizard".to_string());
    assert_eq!(summary(&classes), vec![("fighter".to_string(), None, 5), ("wizard".to_string(), None, 1)]);
}

#[test]
fn can_raise_level_stops_at_twenty_total() {
    assert!(can_raise_level(&[class("fighter", 19)]));
    assert!(!can_raise_level(&[class("fighter", 12), class("rogue", 8)]));
}

#[test]
fn change_level_steps_one_level_within_bounds() {
    let mut classes = vec![class("fighter", 5), class("wizard", 1)];
    change_level(&mut classes, &"fighter".to_string(), true);
    change_level(&mut classes, &"wizard".to_string(), false);
    assert_eq!(summary(&classes), vec![("fighter".to_string(), None, 6), ("wizard".to_string(), None, 1)]);
    let mut capped = vec![class("fighter", 20)];
    change_level(&mut capped, &"fighter".to_string(), true);
    assert_eq!(capped[0].level, 20);
    let mut missing = vec![class("fighter", 3)];
    change_level(&mut missing, &"bard".to_string(), true);
    assert_eq!(missing[0].level, 3);
}

#[test]
fn set_subclass_updates_only_the_named_class() {
    let mut classes = vec![class("fighter", 3), class("wizard", 2)];
    set_subclass(&mut classes, &"fighter".to_string(), "champion".to_string());
    assert_eq!(
        summary(&classes),
        vec![("fighter".to_string(), Some("champion".to_string()), 3), ("wizard".to_string(), None, 2)]
    );
}

#[test]
fn remove_class_keeps_the_others_in_order() {
    let classes = vec![class("fighter", 3), class("wizard", 2), class("rogue", 1)];
    let left = remove_class(classes, &"wizard".to_string());
    assert_eq!(summary(&left), vec![("fighter".to_string(), None, 3), ("rogue".to_string(), None, 1)]);
}
