use lib::builder::{next_step, prev_step, save_button, step_locks, tab_click, LockFacts};

fn facts_all_locked() -> LockFacts {
    LockFacts {
        no_optional_features: true,
        no_skill_choices: true,
        no_expertise: true,
        no_language_choices: true,
        no_tool_choices: true,
        no_spellcasting: true,
        no_asi: true,
    }
}

#[test]
fn step_locks_mark_only_the_lockable_steps() {
    let locks = step_locks(12, &facts_all_locked());
    let locked: Vec<usize> = (0..12).filter(|&i| locks[i]).collect();
    assert_eq!(locked, vec![2, 5, 6, 7, 9, 10]);
    let mut facts = facts_all_locked();
    facts.no_expertise = false;
    facts.no_asi = false;
    let locks = step_locks(12, &facts);
    let locked: Vec<usize> = (0..12).filter(|&i| locks[i]).collect();
    assert_eq!(locked, vec![2, 6, 7, 9]);
}

#[test]
fn a_click_on_a_locked_tab_is_ignored() {
    let locks = step_locks(12, &facts_all_locked());
    assert_eq!(tab_click(4, 5, &locks), 4);
    assert_eq!(tab_click(4, 8, &locks), 8);
    assert_eq!(tab_click(0, 11, &locks), 11);
}

#[test]
fn next_back_and_clicks_never_land_on_a_locked_step() {
    let locks = step_locks(12, &facts_all_locked());
    assert_eq!(next_step(4, &locks), 8);
    assert_eq!(next_step(8, &locks), 11);
    assert_eq!(prev_step(11, &locks), 8);
    assert_eq!(prev_step(8, &locks), 4);
    for current in 0..12 {
        if locks[current] {
            continue;
        }
        assert!(!locks[next_step(current, &locks)]);
        assert!(!locks[prev_step(current, &locks)]);
        for index in 0..12 {
            assert!(!locks[tab_click(current, index, &locks)]);
        }
    }
}

#[test]
fn save_button_is_disabled_until_valid_complete_and_idle() {
    assert_eq!(save_button(true, false, 0), (false, "Save Character"));
    assert_eq!(save_button(false, false, 0), (true, "Save Character"));
    assert_eq!(save_button(true, false, 2), (true, "Save Character"));
    assert_eq!(save_button(true, true, 0), (true, "Saving..."));
}
