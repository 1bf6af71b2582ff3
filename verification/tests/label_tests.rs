use lib::labels::{
    class_band_class, level_badge_label, list_or_none, ordinal, proficiency_bonus_label, sort_indicator,
    subclass_style, ActionFilter, CastingType,
};

#[test]
fn ordinals_use_english_suffixes() {
    assert_eq!(ordinal(1), "1st");
    assert_eq!(ordinal(2), "2nd");
    assert_eq!(ordinal(3), "3rd");
    assert_eq!(ordinal(4), "4th");
    assert_eq!(ordinal(11), "11th");
    assert_eq!(ordinal(12), "12th");
    assert_eq!(ordinal(13), "13th");
    assert_eq!(ordinal(21), "21st");
    assert_eq!(ordinal(112), "112th");
}

#[test]
fn proficiency_bonus_grows_every_four_levels() {
    assert_eq!(proficiency_bonus_label(1), "+2");
    assert_eq!(proficiency_bonus_label(4), "+2");
    assert_eq!(proficiency_bonus_label(5), "+3");
    assert_eq!(proficiency_bonus_label(17), "+6");
    assert_eq!(proficiency_bonus_label(20), "+6");
}

#[test]
fn level_badge_label_marks_cantrips() {
    assert_eq!(level_badge_label(0), "Cantrip");
    assert_eq!(level_badge_label(3), "L3");
}

#[test]
fn list_or_none_joins_or_says_none() {
    assert_eq!(list_or_none(&vec![]), "None");
    assert_eq!(list_or_none(&vec!["Light armor".to_string(), "Shields".to_string()]), "Light armor, Shields");
}

#[test]
fn subclass_styles_cycle_through_seven_colours() {
    assert_eq!(subclass_style(0), ("btn-primary", "border-primary", "badge-primary"));
    assert_eq!(subclass_style(6), ("btn-error", "border-error", "badge-error"));
    assert_eq!(subclass_style(7), subclass_style(0));
    assert_eq!(subclass_style(10), ("btn-info", "border-info", "badge-info"));
}

#[test]
fn class_bands_cycle_through_three() {
    assert_eq!(class_band_class(0), "class-band-0");
    assert_eq!(class_band_class(1), "class-band-1");
    assert_eq!(class_band_class(2), "class-band-2");
    assert_eq!(class_band_class(5), "class-band-2");
    assert_eq!(class_band_class(6), "class-band-0");
}

#[test]
fn sort_indicator_points_the_sort_direction() {
    assert_eq!(sort_indicator(0, 0, 1), " \u{25B2}");
    assert_eq!(sort_indicator(1, 0, 1), " \u{25BC}");
    assert_eq!(sort_indicator(2, 0, 1), "");
}

#[test]
fn action_filters_label_and_match() {
    assert_eq!(ActionFilter::All.label(), "All");
    assert_eq!(ActionFilter::BonusAction.label(), "Bonus Action");
    assert!(ActionFilter::All.matches(CastingType::Other));
    assert!(ActionFilter::Reaction.matches(CastingType::Reaction));
    assert!(!ActionFilter::Action.matches(CastingType::BonusAction));
    assert!(!ActionFilter::Action.matches(CastingType::Other));
}
