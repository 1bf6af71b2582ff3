use lib::abilities::{point_buy_raise_disabled, switch_method, AbilityMethod, AbilityScores};
use lib::labels::{active_filter_count, selected_types};

fn all(s: &AbilityScores) -> [u8; 6] {
    [s.strength, s.dexterity, s.constitution, s.intelligence, s.wisdom, s.charisma]
}

fn scores(v: [u8; 6]) -> AbilityScores {
    AbilityScores { strength: v[0], dexterity: v[1], constitution: v[2], intelligence: v[3], wisdom: v[4], charisma: v[5] }
}

#[test]
fn active_filter_count_adds_every_selected_filter() {
    assert_eq!(active_filter_count(&[]), 0);
    assert_eq!(active_filter_count(&[2, 0, 1]), 3);
}

#[test]
fn selected_type_chips_are_flattened_in_group_order() {
    assert_eq!(selected_types(&[vec![3, 1], vec![], vec![7]]), vec![3, 1, 7]);
    assert!(selected_types(&[]).is_empty());
}

#[test]
fn switching_method_resets_the_scores_for_the_new_method() {
    let mut method = AbilityMethod::Manual;
    let mut s = scores([17, 9, 12, 11, 10, 8]);
    switch_method(&mut method, &mut s, AbilityMethod::PointBuy, scores([10; 6]));
    assert!(method == AbilityMethod::PointBuy);
    assert_eq!(all(&s), [8, 8, 8, 8, 8, 8]);
    switch_method(&mut method, &mut s, AbilityMethod::StandardArray, scores([10; 6]));
    assert!(method == AbilityMethod::StandardArray);
    assert_eq!(all(&s), [15, 14, 13, 12, 10, 8]);
    switch_method(&mut method, &mut s, AbilityMethod::Manual, scores([10; 6]));
    assert!(method == AbilityMethod::Manual);
    assert_eq!(all(&s), [10, 10, 10, 10, 10, 10]);
}

#[test]
fn choosing_the_current_method_again_keeps_the_scores() {
    let mut method = AbilityMethod::PointBuy;
    let mut s = scores([15, 8, 13, 8, 12, 8]);
    switch_method(&mut method, &mut s, AbilityMethod::PointBuy, scores([10; 6]));
    assert!(method == AbilityMethod::PointBuy);
    assert_eq!(all(&s), [15, 8, 13, 8, 12, 8]);
}

#[test]
fn enabled_point_buy_raises_never_exceed_the_budget() {
    // costs 13 -> 5, 14 -> 7, 15 -> 9 with a budget of 27
    assert!(!point_buy_raise_disabled(25, Some(5), Some(7), 27));
    assert!(point_buy_raise_disabled(26, Some(5), Some(7), 27));
    assert!(point_buy_raise_disabled(27, Some(7), Some(9), 27));
    assert!(point_buy_raise_disabled(0, Some(9), None, 27));
}
