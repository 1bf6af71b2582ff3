use lib::matching::{attribute_multiclass_choices, chosen, pool, pool_contains};
use lib::species::{group_species_by_name, species};

#[test]
fn submission_order_does_not_change_the_verdict() {
    let pools = vec![pool(&["a", "b"]), pool(&["a", "b", "c"]), pool(&["c"])];
    let required = vec![1, 1, 1];
    let orders: [[&str; 3]; 6] =
        [["a", "b", "c"], ["a", "c", "b"], ["b", "a", "c"], ["b", "c", "a"], ["c", "a", "b"], ["c", "b", "a"]];
    for order in orders {
        assert!(attribute_multiclass_choices(&chosen(&order), &pools, &required));
    }
}

#[test]
fn every_budget_must_be_spent_from_its_own_pool() {
    let pools = vec![pool(&["a", "b"]), pool(&["c"])];
    assert!(attribute_multiclass_choices(&chosen(&["a", "b", "c"]), &pools, &[2, 1]));
    assert!(!attribute_multiclass_choices(&chosen(&["a", "c", "c"]), &pools, &[2, 1]));
    assert!(attribute_multiclass_choices(&chosen(&[]), &pools, &[0, 0]));
}

#[test]
fn a_class_with_a_budget_but_no_pool_can_never_be_satisfied() {
    let pools = vec![pool(&["a"])];
    assert!(!attribute_multiclass_choices(&chosen(&["a", "a"]), &pools, &[1, 1]));
}

#[test]
fn pool_contains_compares_contents() {
    let p = pool(&["fireball", "shield"]);
    assert!(pool_contains(&p, &"shield".to_string()));
    assert!(!pool_contains(&p, &"Shield".to_string()));
}

#[test]
fn grouping_keeps_every_row_exactly_once() {
    let rows = vec![
        species("a1", "Aasimar", "VGM"),
        species("e1", "Elf", "PHB"),
        species("a2", "Aasimar", "MPMM"),
        species("e2", "Elf", "MPMM"),
        species("g1", "Gnome", "PHB"),
    ];
    let groups = group_species_by_name(rows);
    let names: Vec<&str> = groups.iter().map(|g| g.0.as_str()).collect();
    assert_eq!(names, vec!["Aasimar", "Elf", "Gnome"]);
    let ids: Vec<Vec<&str>> = groups.iter().map(|g| g.1.iter().map(|s| s.id.as_str()).collect()).collect();
    assert_eq!(ids, vec![vec!["a1", "a2"], vec!["e1", "e2"], vec!["g1"]]);
}

#[test]
fn enlarging_a_pool_keeps_an_accepted_set_accepted() {
    let required = vec![1, 1];
    let pools = vec![pool(&["a"]), pool(&["b"])];
    assert!(attribute_multiclass_choices(&chosen(&["b", "a"]), &pools, &required));
    let larger = vec![pool(&["a", "b", "c"]), pool(&["b", "a"])];
    assert!(attribute_multiclass_choices(&chosen(&["b", "a"]), &larger, &required));
}

fn row_ids(groups: &[(String, Vec<lib::species::Species>)]) -> Vec<(String, Vec<String>)> {
    groups.iter().map(|g| (g.0.clone(), g.1.iter().map(|s| s.id.clone()).collect())).collect()
}

#[test]
fn regrouping_the_flattened_groups_gives_the_same_groups() {
    let rows = vec![
        species("e1", "Elf", "PHB"),
        species("d1", "Dwarf", "PHB"),
        species("e2", "Elf", "MPMM"),
        species("h1", "Human", "PHB"),
        species("d2", "Dwarf", "MPMM"),
    ];
    let groups = group_species_by_name(rows);
    let first = row_ids(&groups);
    let flat: Vec<lib::species::Species> = groups.into_iter().flat_map(|g| g.1).collect();
    let again = group_species_by_name(flat);
    assert_eq!(row_ids(&again), first);
}

#[test]
fn one_more_row_joins_only_the_group_of_its_name() {
    let rows = vec![species("e1", "Elf", "PHB"), species("d1", "Dwarf", "PHB")];
    let before = row_ids(&group_species_by_name(vec![species("e1", "Elf", "PHB"), species("d1", "Dwarf", "PHB")]));
    let mut more = rows;
    more.push(species("e2", "Elf", "MPMM"));
    let after = row_ids(&group_species_by_name(more));
    assert_eq!(before[1], after[1]);
    assert_eq!(after[0], ("Elf".to_string(), vec!["e1".to_string(), "e2".to_string()]));
    assert_eq!(after.len(), before.len());
}

#[test]
fn one_more_row_with_a_new_name_adds_a_group_at_the_end() {
    let mut rows = vec![species("e1", "Elf", "PHB"), species("d1", "Dwarf", "PHB")];
    rows.push(species("g1", "Gnome", "PHB"));
    let after = row_ids(&group_species_by_name(rows));
    let names: Vec<&str> = after.iter().map(|g| g.0.as_str()).collect();
    assert_eq!(names, vec!["Elf", "Dwarf", "Gnome"]);
    assert_eq!(after[2].1, vec!["g1".to_string()]);
}
