use lib::items::{
    charges_line, combat_stats_line, magic_bonuses_line, rarity_label, Charges, Damage, ItemMagicBonuses, ItemRange,
    ItemStats,
};

fn bare_item() -> ItemStats {
    ItemStats { damage: None, base_ac: None, range: None, weapon_category: None, property_labels: vec![], charges: None }
}

fn no_bonuses() -> ItemMagicBonuses {
    ItemMagicBonuses {
        weapon_attack_and_damage: None,
        weapon_attack: None,
        weapon_damage: None,
        ac: None,
        spell_attack: None,
        spell_save_dc: None,
        saving_throw: None,
        ability_check: None,
        proficiency_bonus: None,
    }
}

#[test]
fn rarity_label_capitalises_each_word() {
    assert_eq!(rarity_label("very rare"), "Very Rare");
    assert_eq!(rarity_label("uncommon"), "Uncommon");
    assert_eq!(rarity_label(""), "");
}

#[test]
fn rarity_label_keeps_empty_words_between_spaces() {
    assert_eq!(rarity_label("a  b"), "A  B");
    assert_eq!(rarity_label("unknown (magic)"), "Unknown (Magic)");
    assert_eq!(rarity_label("common"), "Common");
    assert_eq!(rarity_label("\"legendary\" +1"), "\"Legendary\" +1");
}

#[test]
fn combat_stats_line_is_absent_without_stats() {
    assert_eq!(combat_stats_line(&bare_item()), None);
}

#[test]
fn combat_stats_line_joins_present_parts_in_order() {
    let mut item = bare_item();
    item.damage = Some(Damage {
        dice: "1d8".to_string(),
        dice_versatile: Some("1d10".to_string()),
        damage_type: Some("slashing".to_string()),
    });
    item.range = Some(ItemRange { normal: 20, long: Some(60) });
    item.weapon_category = Some("Martial".to_string());
    item.property_labels = vec!["Versatile".to_string(), "Thrown".to_string()];
    assert_eq!(
        combat_stats_line(&item),
        Some("Damage: 1d8 / 1d10 slashing · Range 20/60 ft. · Martial · Versatile, Thrown".to_string())
    );
}

#[test]
fn combat_stats_line_for_armor() {
    let mut item = bare_item();
    item.base_ac = Some(16);
    assert_eq!(combat_stats_line(&item), Some("AC 16".to_string()));
    item.range = Some(ItemRange { normal: 30, long: None });
    assert_eq!(combat_stats_line(&item), Some("AC 16 · Range 30 ft.".to_string()));
}

#[test]
fn magic_bonuses_line_lists_present_bonuses() {
    assert_eq!(magic_bonuses_line(&no_bonuses()), None);
    let mut b = no_bonuses();
    b.weapon_attack_and_damage = Some(1);
    b.ac = Some(2);
    b.proficiency_bonus = Some(1);
    assert_eq!(
        magic_bonuses_line(&b),
        Some("+1 to attack and damage rolls, +2 to AC, +1 to proficiency bonus".to_string())
    );
}

#[test]
fn charges_line_adds_recharge_details_when_present() {
    let mut item = bare_item();
    assert_eq!(charges_line(&item), None);
    item.charges = Some(Charges { max: 7, recharge_trigger: Some("dawn".to_string()), recharge_amount: Some("1d6+1".to_string()) });
    assert_eq!(charges_line(&item), Some("Charges: 7, recharges dawn (1d6+1)".to_string()));
    item.charges = Some(Charges { max: 3, recharge_trigger: Some(String::new()), recharge_amount: None });
    assert_eq!(charges_line(&item), Some("Charges: 3".to_string()));
}

#[test]
fn title_casing_uses_the_given_uppercase_forms_for_word_starts_only() {
    let s = "unknown (magic)";
    let uppers: Vec<String> = s.chars().map(|c| format!("<{c}>")).collect();
    assert_eq!(lib::items::title_case_words(s, &uppers), "<u>nknown (<m>agic)");
    let s = "very rare";
    let uppers: Vec<String> = s.chars().map(|c| c.to_uppercase().collect()).collect();
    assert_eq!(lib::items::title_case_words(s, &uppers), "Very Rare");
}
