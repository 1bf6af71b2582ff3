use lib::matching::{attribute_multiclass_choices, chosen, pool};

#[test]
fn assigns_disjoint_pools_directly() {
    let pools = vec![pool(&["fireball"]), pool(&["cure_wounds"])];
    let required = vec![1, 1];
    assert!(attribute_multiclass_choices(&chosen(&["fireball", "cure_wounds"]), &pools, &required));
}

#[test]
fn rejects_a_pick_that_matches_no_pool() {
    let pools = vec![pool(&["fireball"])];
    let required = vec![1];
    assert!(!attribute_multiclass_choices(&chosen(&["magic_missile"]), &pools, &required));
}

#[test]
fn rejects_wrong_total_count() {
    let pools = vec![pool(&["fireball", "magic_missile"])];
    let required = vec![1];
    assert!(!attribute_multiclass_choices(&chosen(&["fireball", "magic_missile"]), &pools, &required));
}

// Three classes each need one pick; pools overlap so that placing picks in
// submission order greedily would strand the last one.
#[test]
fn finds_a_valid_assignment_when_pools_overlap_and_first_fit_would_fail() {
    let pools = vec![pool(&["item1", "item2"]), pool(&["item1", "item2", "item3"]), pool(&["item3"])];
    let required = vec![1, 1, 1];
    assert!(attribute_multiclass_choices(&chosen(&["item3", "item1", "item2"]), &pools, &required));
}

#[test]
fn rejects_when_no_valid_assignment_exists_despite_overlap() {
    // Counts match overall, but both picks only fit pool 0.
    let pools = vec![pool(&["item1", "item2"]), pool(&["item3"])];
    let required = vec![1, 1];
    assert!(!attribute_multiclass_choices(&chosen(&["item1", "item2"]), &pools, &required));
}
