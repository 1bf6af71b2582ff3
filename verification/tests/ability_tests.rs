use lib::abilities::{
    assign_standard_value, manual_score, point_buy_decrease, point_buy_start_scores, set_custom_bonus,
    standard_array_scores, switch_bonus_source, AbilityScores, BonusPicks,
};
use lib::validation::AbilityBonusSource;

fn all(s: &AbilityScores) -> [u8; 6] {
    [s.get(0), s.get(1), s.get(2), s.get(3), s.get(4), s.get(5)]
}

#[test]
fn standard_array_and_point_buy_start_values() {
    assert_eq!(all(&standard_array_scores()), [15, 14, 13, 12, 10, 8]);
    assert_eq!(all(&point_buy_start_scores()), [8, 8, 8, 8, 8, 8]);
}

#[test]
fn set_changes_one_ability() {
    let mut s = point_buy_start_scores();
    s.set(4, 13);
    assert_eq!(all(&s), [8, 8, 8, 8, 13, 8]);
    assert_eq!(s.wisdom, 13);
}

#[test]
fn assigning_a_standard_value_swaps_it_with_its_holder() {
    let mut s = standard_array_scores();
    assign_standard_value(&mut s, 5, 15);
    assert_eq!(all(&s), [8, 14, 13, 12, 10, 15]);
    let mut sorted = all(&s);
    sorted.sort();
    assert_eq!(sorted, [8, 10, 12, 13, 14, 15]);
}

#[test]
fn point_buy_decrease_never_goes_below_eight() {
    assert_eq!(point_buy_decrease(15), 14);
    assert_eq!(point_buy_decrease(9), 8);
    assert_eq!(point_buy_decrease(8), 8);
}

#[test]
fn manual_score_clamps_to_three_through_twenty() {
    assert_eq!(manual_score(1), 3);
    assert_eq!(manual_score(17), 17);
    assert_eq!(manual_score(25), 20);
}

#[test]
fn set_custom_bonus_pads_to_two_picks() {
    let mut codes: Vec<String> = Vec::new();
    set_custom_bonus(&mut codes, 1, "wis".to_string());
    assert_eq!(codes, vec!["str".to_string(), "wis".to_string()]);
    set_custom_bonus(&mut codes, 0, "dex".to_string());
    assert_eq!(codes, vec!["dex".to_string(), "wis".to_string()]);
}

#[test]
fn switching_bonus_source_resets_the_other_side() {
    let mut picks = BonusPicks {
        source: AbilityBonusSource::Species,
        species_choices: vec!["con".to_string()],
        custom_choices: vec![],
    };
    switch_bonus_source(&mut picks, AbilityBonusSource::Custom);
    assert!(picks.source == AbilityBonusSource::Custom);
    assert!(picks.species_choices.is_empty());
    assert_eq!(picks.custom_choices, vec!["str".to_string(), "dex".to_string()]);
    switch_bonus_source(&mut picks, AbilityBonusSource::Custom);
    assert_eq!(picks.custom_choices, vec!["str".to_string(), "dex".to_string()]);
    switch_bonus_source(&mut picks, AbilityBonusSource::Species);
    assert!(picks.source == AbilityBonusSource::Species);
    assert!(picks.custom_choices.is_empty());
}
