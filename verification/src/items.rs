//! Item detail card lines: rarity, combat stats, magic bonuses, charges.
use vstd::prelude::*;
use crate::text::{decimal, join, join_strings, push_decimal, push_str, signed_decimal, views};

verus! {

// ---------------------------------------------------------------------------
// Rarity
// ---------------------------------------------------------------------------

/// What `char::to_uppercase` yields for `c`.
pub uninterp spec fn upper_of(c: char) -> Seq<char>;

/// `char::to_uppercase`, collected into a string: the result is named by
/// `upper_of`; for `a`-`z` it is the matching capital letter and any other
/// ASCII character is unchanged. For other characters nothing more is stated.
#[verifier::external_body]
fn char_to_uppercase(c: char) -> (r: String)
    ensures
        r@ == upper_of(c),
        'a' <= c <= 'z' ==> r@ == seq![((c as int) - 32) as char],
        (c as int) < 128 && !('a' <= c <= 'z') ==> r@ == seq![c],
{
    c.to_uppercase().collect()
}

/// ASCII punctuation: the characters `char::is_ascii_punctuation` accepts.
pub open spec fn ascii_punct(c: char) -> bool {
    let u = c as int;
    (0x21 <= u <= 0x2F) || (0x3A <= u <= 0x40) || (0x5B <= u <= 0x60) || (0x7B <= u <= 0x7E)
}

/// Whether `c` is ASCII punctuation.
fn is_ascii_punct(c: char) -> (r: bool)
    ensures
        r == ascii_punct(c),
{
    let u = c as u32;
    (0x21 <= u && u <= 0x2F) || (0x3A <= u && u <= 0x40) || (0x5B <= u && u <= 0x60) || (0x7B <= u && u <= 0x7E)
}

/// No letter of the word holding position `i` comes before `i`: `i` starts
/// a space-separated word, or only punctuation precedes it in its word.
pub open spec fn word_pending(s: Seq<char>, i: int) -> bool
    decreases i,
{
    if i <= 0 {
        true
    } else if s[i - 1] == ' ' {
        true
    } else {
        ascii_punct(s[i - 1]) && word_pending(s, i - 1)
    }
}

/// What character `i` of `s` becomes when each word is title-cased, with
/// `ups[i]` the uppercase form of character `i`: the first character of a
/// space-separated word that isn't punctuation is uppercased (so `"(magic)"`
/// becomes `"(Magic)"`); everything else is kept.
pub open spec fn title_piece_with(s: Seq<char>, ups: Seq<Seq<char>>, i: int) -> Seq<char> {
    if s[i] == ' ' {
        seq![' ']
    } else if word_pending(s, i) && !ascii_punct(s[i]) {
        ups[i]
    } else {
        seq![s[i]]
    }
}

/// `s` with each space-separated word title-cased, `ups[i]` being the
/// uppercase form of character `i`.
pub open spec fn title_case_with(s: Seq<char>, ups: Seq<Seq<char>>) -> Seq<char>
    decreases s.len(),
{
    if s.len() == 0 {
        seq![]
    } else {
        title_case_with(s.drop_last(), ups) + title_piece_with(s, ups, s.len() - 1)
    }
}

/// The uppercase form of each character of `s` (`char::to_uppercase`).
pub open spec fn uppers_of(s: Seq<char>) -> Seq<Seq<char>> {
    Seq::new(s.len(), |i: int| upper_of(s[i]))
}

/// `s` with each space-separated word title-cased.
pub open spec fn title_case(s: Seq<char>) -> Seq<char> {
    title_case_with(s, uppers_of(s))
}

proof fn lemma_pending_prefix(s: Seq<char>, n: int, i: int)
    requires
        0 <= i < n <= s.len(),
    ensures
        word_pending(s.take(n), i) == word_pending(s, i),
    decreases i,
{
    if i > 0 {
        assert(s.take(n)[i - 1] == s[i - 1]);
        lemma_pending_prefix(s, n, i - 1);
    }
}

/// Title-cases each space-separated word of `s`, given the uppercase form of
/// each of its characters (`uppers[i]` for character `i`): a word's first
/// character that isn't ASCII punctuation is replaced by its uppercase form,
/// all other characters are kept.
pub fn title_case_words(s: &str, uppers: &Vec<String>) -> (r: String)
    requires
        uppers@.len() == s@.len(),
    ensures
        r@ == title_case_with(s@, views(uppers@)),
{
    let n = s.unicode_len();
    let ghost ups = views(uppers@);
    let mut out = String::new();
    let mut pending = true;
    let mut i: usize = 0;
    while i < n
        invariant
            i <= n,
            n == s@.len(),
            uppers@.len() == n,
            ups == views(uppers@),
            out@ == title_case_with(s@.take(i as int), ups),
            pending == word_pending(s@, i as int),
        decreases n - i,
    {
        let c = s.get_char(i);
        let punct = is_ascii_punct(c);
        if c == ' ' {
            push_str(&mut out, " ");
            proof {
                reveal_strlit(" ");
            }
        } else if pending && !punct {
            push_str(&mut out, uppers[i].as_str());
        } else {
            crate::text::push_char(&mut out, c);
        }
        proof {
            let t = s@.take(i + 1);
            assert(t.drop_last() =~= s@.take(i as int));
            assert(t[i as int] == s@[i as int]);
            lemma_pending_prefix(s@, i + 1, i as int);
            assert(ups[i as int] == uppers@[i as int]@);
            assert(out@ =~= title_case_with(t, ups));
        }
        pending = c == ' ' || (punct && pending);
        i = i + 1;
    }
    proof {
        assert(s@.take(n as int) =~= s@);
    }
    out
}

/// A rarity for display: 5etools rarities are lowercase words ("very rare",
/// "unknown (magic)"), shown with each word title-cased ("Very Rare",
/// "Unknown (Magic)").
pub fn rarity_label(rarity: &str) -> (r: String)
    ensures
        r@ == title_case(rarity@),
{
    let n = rarity.unicode_len();
    let mut uppers: Vec<String> = Vec::new();
    let mut i: usize = 0;
    while i < n
        invariant
            i <= n,
            n == rarity@.len(),
            views(uppers@) == uppers_of(rarity@).take(i as int),
        decreases n - i,
    {
        let u = char_to_uppercase(rarity.get_char(i));
        let ghost before = uppers@;
        uppers.push(u);
        proof {
            assert(views(uppers@) =~= views(before).push(u@));
            assert(uppers_of(rarity@).take(i + 1) =~= uppers_of(rarity@).take(i as int).push(u@));
        }
        i = i + 1;
    }
    proof {
        assert(uppers_of(rarity@).take(n as int) =~= uppers_of(rarity@));
    }
    title_case_words(rarity, &uppers)
}

// ---------------------------------------------------------------------------
// Stats
// ---------------------------------------------------------------------------

/// A weapon's damage: dice, optional versatile dice, optional damage type label.
pub struct Damage {
    pub dice: String,
    pub dice_versatile: Option<String>,
    pub damage_type: Option<String>,
}

/// A weapon's range in feet.
pub struct ItemRange {
    pub normal: u32,
    pub long: Option<u32>,
}

/// An item's charges and how they recharge.
pub struct Charges {
    pub max: u32,
    pub recharge_trigger: Option<String>,
    pub recharge_amount: Option<String>,
}

/// The fields of an item that its stat lines read (labels already resolved).
pub struct ItemStats {
    pub damage: Option<Damage>,
    pub base_ac: Option<u32>,
    pub range: Option<ItemRange>,
    pub weapon_category: Option<String>,
    pub property_labels: Vec<String>,
    pub charges: Option<Charges>,
}

/// The damage part: `"Damage: <dice>"` or `"Damage: <dice> / <versatile>"`,
/// then `" <type>"` when the type is known.
pub open spec fn damage_text(d: Damage) -> Seq<char> {
    "Damage: "@ + d.dice@ + match d.dice_versatile {
        Some(v) => " / "@ + v@,
        None => seq![],
    } + match d.damage_type {
        Some(t) => seq![' '] + t@,
        None => seq![],
    }
}

/// The range part: `"Range <normal>/<long> ft."` or `"Range <normal> ft."`.
pub open spec fn range_text(r: ItemRange) -> Seq<char> {
    match r.long {
        Some(l) => "Range "@ + decimal(r.normal as nat) + seq!['/'] + decimal(l as nat) + " ft."@,
        None => "Range "@ + decimal(r.normal as nat) + " ft."@,
    }
}

/// The parts of the combat stat line, those present, in order: damage, AC,
/// range, weapon category, properties (joined with `", "`).
pub open spec fn combat_parts(item: ItemStats) -> Seq<Seq<char>> {
    (match item.damage {
        Some(d) => seq![damage_text(d)],
        None => seq![],
    }) + (match item.base_ac {
        Some(ac) => seq!["AC "@ + decimal(ac as nat)],
        None => seq![],
    }) + (match item.range {
        Some(r) => seq![range_text(r)],
        None => seq![],
    }) + (match item.weapon_category {
        Some(c) => seq![c@],
        None => seq![],
    }) + (if item.property_labels@.len() == 0 {
        seq![]
    } else {
        seq![join(views(item.property_labels@), ", "@)]
    })
}

fn push_part(parts: &mut Vec<String>, p: String)
    ensures
        views(final(parts)@) == views(old(parts)@).push(p@),
{
    parts.push(p);
    proof {
        assert(views(final(parts)@) =~= views(old(parts)@).push(p@));
    }
}

/// The weapon/armor stat line, `None` for items with none of these stats.
pub fn combat_stats_line(item: &ItemStats) -> (r: Option<String>)
    ensures
        combat_parts(*item).len() == 0 ==> r is None,
        combat_parts(*item).len() > 0 ==> (r matches Some(s) && s@ == join(combat_parts(*item), " \u{00B7} "@)),
{
    let mut parts: Vec<String> = Vec::new();
    assert(views(parts@) =~= Seq::<Seq<char>>::empty());
    let ghost p0 = views(parts@);
    match &item.damage {
        Some(d) => {
            let mut s = String::new();
            push_str(&mut s, "Damage: ");
            push_str(&mut s, d.dice.as_str());
            match &d.dice_versatile {
                Some(v) => {
                    push_str(&mut s, " / ");
                    push_str(&mut s, v.as_str());
                },
                None => {},
            }
            match &d.damage_type {
                Some(t) => {
                    push_str(&mut s, " ");
                    push_str(&mut s, t.as_str());
                    proof {
                        reveal_strlit(" ");
                    }
                },
                None => {},
            }
            proof {
                assert(s@ =~= damage_text(*d));
            }
            push_part(&mut parts, s);
        },
        None => {},
    }
    let ghost p1 = views(parts@);
    match item.base_ac {
        Some(ac) => {
            let mut s = String::new();
            push_str(&mut s, "AC ");
            push_decimal(&mut s, ac as u64);
            push_part(&mut parts, s);
        },
        None => {},
    }
    let ghost p2 = views(parts@);
    match &item.range {
        Some(r) => {
            let mut s = String::new();
            push_str(&mut s, "Range ");
            push_decimal(&mut s, r.normal as u64);
            match r.long {
                Some(l) => {
                    push_str(&mut s, "/");
                    push_decimal(&mut s, l as u64);
                    proof {
                        reveal_strlit("/");
                    }
                },
                None => {},
            }
            push_str(&mut s, " ft.");
            proof {
                assert(s@ =~= range_text(*r));
            }
            push_part(&mut parts, s);
        },
        None => {},
    }
    let ghost p3 = views(parts@);
    match &item.weapon_category {
        Some(c) => push_part(&mut parts, c.clone()),
        None => {},
    }
    let ghost p4 = views(parts@);
    if item.property_labels.len() > 0 {
        let joined = join_strings(&item.property_labels, ", ");
        push_part(&mut parts, joined);
    }
    proof {
        assert(views(parts@) =~= combat_parts(*item));
    }
    if parts.len() == 0 {
        None
    } else {
        Some(join_strings(&parts, " \u{00B7} "))
    }
}

/// Magic bonuses of an item; absent ones are `None`.
pub struct ItemMagicBonuses {
    pub weapon_attack_and_damage: Option<i32>,
    pub weapon_attack: Option<i32>,
    pub weapon_damage: Option<i32>,
    pub ac: Option<i32>,
    pub spell_attack: Option<i32>,
    pub spell_save_dc: Option<i32>,
    pub saving_throw: Option<i32>,
    pub ability_check: Option<i32>,
    pub proficiency_bonus: Option<i32>,
}

/// One bonus as a part: `"+<value><suffix>"`, or nothing when absent.
pub open spec fn bonus_part(v: Option<i32>, suffix: Seq<char>) -> Seq<Seq<char>> {
    match v {
        Some(x) => seq![seq!['+'] + signed_decimal(x as int) + suffix],
        None => seq![],
    }
}

/// The bonus parts, in card order.
pub open spec fn bonus_parts(b: ItemMagicBonuses) -> Seq<Seq<char>> {
    bonus_part(b.weapon_attack_and_damage, " to attack and damage rolls"@) + bonus_part(b.weapon_attack, " to attack rolls"@)
        + bonus_part(b.weapon_damage, " to damage rolls"@) + bonus_part(b.ac, " to AC"@) + bonus_part(
        b.spell_attack,
        " to spell attack rolls"@,
    ) + bonus_part(b.spell_save_dc, " to spell save DC"@) + bonus_part(b.saving_throw, " to saving throws"@)
        + bonus_part(b.ability_check, " to ability checks"@) + bonus_part(b.proficiency_bonus, " to proficiency bonus"@)
}

fn push_bonus(parts: &mut Vec<String>, v: Option<i32>, suffix: &str)
    ensures
        views(final(parts)@) == views(old(parts)@) + bonus_part(v, suffix@),
{
    match v {
        Some(x) => {
            let mut s = String::new();
            push_str(&mut s, "+");
            crate::text::push_signed_decimal(&mut s, x as i64);
            push_str(&mut s, suffix);
            proof {
                reveal_strlit("+");
                assert(s@ =~= seq!['+'] + signed_decimal(x as int) + suffix@);
            }
            push_part(parts, s);
            proof {
                assert(views(final(parts)@) =~= views(old(parts)@) + bonus_part(v, suffix@));
            }
        },
        None => {
            assert(views(final(parts)@) =~= views(old(parts)@) + bonus_part(v, suffix@));
        },
    }
}

/// The magic bonus line: every present bonus joined with `", "`, `None`
/// when the item has no bonus at all.
pub fn magic_bonuses_line(b: &ItemMagicBonuses) -> (r: Option<String>)
    ensures
        bonus_parts(*b).len() == 0 ==> r is None,
        bonus_parts(*b).len() > 0 ==> (r matches Some(s) && s@ == join(bonus_parts(*b), ", "@)),
{
    let mut parts: Vec<String> = Vec::new();
    assert(views(parts@) =~= Seq::<Seq<char>>::empty());
    push_bonus(&mut parts, b.weapon_attack_and_damage, " to attack and damage rolls");
    push_bonus(&mut parts, b.weapon_attack, " to attack rolls");
    push_bonus(&mut parts, b.weapon_damage, " to damage rolls");
    push_bonus(&mut parts, b.ac, " to AC");
    push_bonus(&mut parts, b.spell_attack, " to spell attack rolls");
    push_bonus(&mut parts, b.spell_save_dc, " to spell save DC");
    push_bonus(&mut parts, b.saving_throw, " to saving throws");
    push_bonus(&mut parts, b.ability_check, " to ability checks");
    push_bonus(&mut parts, b.proficiency_bonus, " to proficiency bonus");
    proof {
        assert(views(parts@) =~= bonus_parts(*b));
    }
    if parts.len() == 0 {
        None
    } else {
        Some(join_strings(&parts, ", "))
    }
}

/// Text of an optional field, empty when absent.
pub open spec fn opt_str(s: Option<String>) -> Seq<char> {
    match s {
        Some(t) => t@,
        None => seq![],
    }
}

/// The charges line: `"Charges: <max>"`, then `", recharges <trigger>"` and
/// `" (<amount>)"` when those are non-empty.
pub open spec fn charges_text(c: Charges) -> Seq<char> {
    "Charges: "@ + decimal(c.max as nat) + (if opt_str(c.recharge_trigger).len() == 0 {
        seq![]
    } else {
        ", recharges "@ + opt_str(c.recharge_trigger)
    }) + (if opt_str(c.recharge_amount).len() == 0 {
        seq![]
    } else {
        " ("@ + opt_str(c.recharge_amount) + seq![')']
    })
}

/// The item's charges line, if it has charges.
pub fn charges_line(item: &ItemStats) -> (r: Option<String>)
    ensures
        match item.charges {
            Some(c) => r matches Some(s) && s@ == charges_text(c),
            None => r is None,
        },
{
    match &item.charges {
        None => None,
        Some(c) => {
            let mut s = String::new();
            push_str(&mut s, "Charges: ");
            push_decimal(&mut s, c.max as u64);
            match &c.recharge_trigger {
                Some(t) => {
                    if !t.as_str().is_empty() {
                        push_str(&mut s, ", recharges ");
                        push_str(&mut s, t.as_str());
                    }
                },
                None => {},
            }
            match &c.recharge_amount {
                Some(a) => {
                    if !a.as_str().is_empty() {
                        push_str(&mut s, " (");
                        push_str(&mut s, a.as_str());
                        push_str(&mut s, ")");
                        proof {
                            reveal_strlit(")");
                        }
                    }
                },
                None => {},
            }
            proof {
                assert(s@ =~= charges_text(*c));
            }
            Some(s)
        },
    }
}

/// A known damage type always ends the damage part, after the dice and any
/// versatile dice: with the type, the part is the part without it followed by
/// a space and the type.
pub proof fn lemma_damage_type_ends_the_part(with_type: Damage, without: Damage)
    requires
        with_type.dice@ == without.dice@,
        with_type.dice_versatile == without.dice_versatile,
        with_type.damage_type is Some,
        without.damage_type is None,
    ensures
        damage_text(with_type) == damage_text(without) + seq![' '] + with_type.damage_type->0@,
        damage_text(with_type).subrange(
            damage_text(with_type).len() - with_type.damage_type->0@.len(),
            damage_text(with_type).len() as int,
        ) == with_type.damage_type->0@,
{
    let t = with_type.damage_type->0@;
    let x = damage_text(with_type);
    assert(x.subrange(x.len() - t.len(), x.len() as int) =~= t);
}

/// The damage part always starts with `"Damage: "` and the dice.
pub proof fn lemma_damage_part_starts_with_dice(d: Damage)
    ensures
        damage_text(d).subrange(0, 8 + d.dice@.len() as int) == "Damage: "@ + d.dice@,
{
    reveal_strlit("Damage: ");
    assert(damage_text(d).subrange(0, 8 + d.dice@.len() as int) =~= "Damage: "@ + d.dice@);
}

} // verus!
