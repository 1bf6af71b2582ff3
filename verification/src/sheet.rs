//! Lines of the character sheet, the character list and the class pages.
use vstd::prelude::*;
use std::collections::BTreeMap;
use crate::asi::AsiChoice;
use crate::builder::{key_views, ClassLevel};
use crate::picks::{find_pick, first_index};
use crate::slots::{class_asi_keys, push_class_asi_keys};
use crate::matching::{pool_contains, pool_has};
use crate::validation::ability_codes;
use crate::text::{decimal, join, join_strings, push_char, push_decimal, push_str, signed_decimal, views};

verus! {

// ---------------------------------------------------------------------------
// Number formats
// ---------------------------------------------------------------------------

/// A modifier with its sign always shown: `+3`, `-1`, `+0`.
pub open spec fn plus_signed(v: int) -> Seq<char> {
    if v >= 0 {
        seq!['+'] + decimal(v as nat)
    } else {
        signed_decimal(v)
    }
}

/// Appends a modifier with its sign always shown.
pub fn push_plus_signed(s: &mut String, v: i64)
    ensures
        final(s)@ == old(s)@ + plus_signed(v as int),
{
    if v >= 0 {
        push_char(s, '+');
        push_decimal(s, v as u64);
        proof {
            assert(final(s)@ =~= old(s)@ + plus_signed(v as int));
        }
    } else {
        crate::text::push_signed_decimal(s, v);
    }
}

/// A modifier for display, e.g. `"+2"`.
pub fn modifier_label(v: i64) -> (r: String)
    ensures
        r@ == plus_signed(v as int),
{
    let mut s = String::new();
    push_plus_signed(&mut s, v);
    proof {
        assert(s@ =~= plus_signed(v as int));
    }
    s
}

/// Two-digit zero-padded decimal (no padding from 10 up).
pub open spec fn two_digits(n: nat) -> Seq<char> {
    if n < 10 { seq!['0'] + decimal(n) } else { decimal(n) }
}

fn push_two_digits(s: &mut String, n: u8)
    ensures
        final(s)@ == old(s)@ + two_digits(n as nat),
{
    if n < 10 {
        push_char(s, '0');
    }
    push_decimal(s, n as u64);
    proof {
        assert(final(s)@ =~= old(s)@ + two_digits(n as nat));
    }
}

/// Level badge of a character card, e.g. `"LV 05"`.
pub fn level_badge(level: u8) -> (r: String)
    ensures
        r@ == "LV "@ + two_digits(level as nat),
{
    let mut s = String::new();
    push_str(&mut s, "LV ");
    push_two_digits(&mut s, level);
    s
}

/// The class step's running total, e.g. `"TOTAL LEVEL 07 / 20"`.
pub fn total_level_label(total: u8) -> (r: String)
    ensures
        r@ == "TOTAL LEVEL "@ + two_digits(total as nat) + " / 20"@,
{
    let mut s = String::new();
    push_str(&mut s, "TOTAL LEVEL ");
    push_two_digits(&mut s, total);
    push_str(&mut s, " / 20");
    s
}

/// Hit die label, e.g. `"d10"`.
pub fn hit_die_label(hit_die: u8) -> (r: String)
    ensures
        r@ == seq!['d'] + decimal(hit_die as nat),
{
    let mut s = String::new();
    push_char(&mut s, 'd');
    push_decimal(&mut s, hit_die as u64);
    proof {
        assert(s@ =~= seq!['d'] + decimal(hit_die as nat));
    }
    s
}

/// Armor class without armor: 10 plus the Dexterity modifier.
pub fn armor_class_label(dex_mod: i8) -> (r: String)
    ensures
        r@ == signed_decimal(10 + dex_mod as int),
{
    let mut s = String::new();
    crate::text::push_signed_decimal(&mut s, 10 + dex_mod as i64);
    proof {
        assert(s@ =~= signed_decimal(10 + dex_mod as int));
    }
    s
}

/// Darkvision range, e.g. `"60 ft."`.
pub fn darkvision_label(range: u32) -> (r: String)
    ensures
        r@ == decimal(range as nat) + " ft."@,
{
    let mut s = String::new();
    push_decimal(&mut s, range as u64);
    push_str(&mut s, " ft.");
    s
}

// ---------------------------------------------------------------------------
// Modifiers
// ---------------------------------------------------------------------------

/// A saving throw: the ability modifier, plus the proficiency bonus when the
/// primary class grants proficiency in it.
pub fn saving_throw_modifier(ability_mod: i8, proficiency: u8, proficient: bool) -> (r: i16)
    ensures
        r == ability_mod + (if proficient { proficiency as int } else { 0 }),
{
    ability_mod as i16 + if proficient { proficiency as i16 } else { 0 }
}

/// A skill: the ability modifier, plus the proficiency bonus when
/// proficient, plus it once more with expertise.
pub fn skill_modifier(ability_mod: i8, proficiency: u8, proficient: bool, expertise: bool) -> (r: i16)
    ensures
        r == ability_mod + (if proficient { proficiency as int } else { 0 }) + (if expertise {
            proficiency as int
        } else {
            0
        }),
{
    ability_mod as i16 + (if proficient { proficiency as i16 } else { 0 }) + (if expertise {
        proficiency as i16
    } else {
        0
    })
}

/// Marker after a skill: a star for expertise, a dot for proficiency.
pub fn skill_marker(proficient: bool, expertise: bool) -> (r: &'static str)
    ensures
        r@ == (if expertise { " \u{2605}"@ } else if proficient { " \u{25CF}"@ } else { ""@ }),
{
    if expertise {
        " \u{2605}"
    } else if proficient {
        " \u{25CF}"
    } else {
        ""
    }
}

// ---------------------------------------------------------------------------
// Subtitles
// ---------------------------------------------------------------------------

/// One class of a character as a subtitle shows it.
pub struct ClassLine {
    pub level: u8,
    pub name: String,
    pub subclass_short_name: Option<String>,
}

/// `"Level <level> <name>"`, with `" (<subclass>)"` when the class has one.
pub open spec fn class_segment(c: ClassLine) -> Seq<char> {
    "Level "@ + decimal(c.level as nat) + seq![' '] + c.name@ + match c.subclass_short_name {
        Some(s) => " ("@ + s@ + seq![')'],
        None => seq![],
    }
}

/// The class part of the sheet subtitle: an unknown class when there is
/// none; for one class, the total level and class name, then the subclass as
/// its own part; for several, every class's segment joined with `" / "`.
pub open spec fn class_parts(total_level: u8, classes: Seq<ClassLine>) -> Seq<Seq<char>> {
    if classes.len() == 0 {
        seq!["Level "@ + decimal(total_level as nat) + " Unknown class"@]
    } else if classes.len() == 1 {
        let c = classes[0];
        let head = "Level "@ + decimal(total_level as nat) + seq![' '] + c.name@;
        match c.subclass_short_name {
            Some(s) => seq![head, s@],
            None => seq![head],
        }
    } else {
        seq![join(classes.map_values(|c: ClassLine| class_segment(c)), " / "@)]
    }
}

/// An optional name as a subtitle part.
pub open spec fn opt_part(name: Option<String>) -> Seq<Seq<char>> {
    match name {
        Some(n) => seq![n@],
        None => seq![],
    }
}

fn push_segment(s: &mut String, c: &ClassLine)
    ensures
        final(s)@ == old(s)@ + class_segment(*c),
{
    push_str(s, "Level ");
    push_decimal(s, c.level as u64);
    push_char(s, ' ');
    push_str(s, c.name.as_str());
    match &c.subclass_short_name {
        Some(sub) => {
            push_str(s, " (");
            push_str(s, sub.as_str());
            push_char(s, ')');
        },
        None => {},
    }
    proof {
        assert(final(s)@ =~= old(s)@ + class_segment(*c));
    }
}

fn push_part(parts: &mut Vec<String>, p: String)
    ensures
        views(final(parts)@) == views(old(parts)@).push(p@),
{
    parts.push(p);
    proof {
        assert(views(final(parts)@) =~= views(old(parts)@).push(p@));
    }
}

/// The character sheet's subtitle: class parts, then species and background
/// names, joined with `" · "`.
pub fn sheet_subtitle(
    total_level: u8,
    classes: &Vec<ClassLine>,
    species: &Option<String>,
    background: &Option<String>,
) -> (r: String)
    ensures
        r@ == join(class_parts(total_level, classes@) + opt_part(*species) + opt_part(*background), " \u{00B7} "@),
{
    let mut parts: Vec<String> = Vec::new();
    assert(views(parts@) =~= Seq::<Seq<char>>::empty());
    if classes.len() == 0 {
        let mut s = String::new();
        push_str(&mut s, "Level ");
        push_decimal(&mut s, total_level as u64);
        push_str(&mut s, " Unknown class");
        push_part(&mut parts, s);
        assert(views(parts@) =~= class_parts(total_level, classes@));
    } else if classes.len() == 1 {
        let c = &classes[0];
        assert(*c == classes@[0]);
        let mut s = String::new();
        push_str(&mut s, "Level ");
        push_decimal(&mut s, total_level as u64);
        push_char(&mut s, ' ');
        push_str(&mut s, c.name.as_str());
        push_part(&mut parts, s);
        assert(s@ == "Level "@ + decimal(total_level as nat) + seq![' '] + c.name@);
        match &c.subclass_short_name {
            Some(sub) => push_part(&mut parts, sub.clone()),
            None => {},
        }
        assert(views(parts@) =~= class_parts(total_level, classes@));
    } else {
        let mut segments: Vec<String> = Vec::new();
        assert(views(segments@) =~= Seq::<Seq<char>>::empty());
        assert(classes@.take(0).map_values(|c: ClassLine| class_segment(c)) =~= Seq::<Seq<char>>::empty());
        let mut i: usize = 0;
        while i < classes.len()
            invariant
                i <= classes@.len(),
                views(segments@) == classes@.take(i as int).map_values(|c: ClassLine| class_segment(c)),
            decreases classes@.len() - i,
        {
            let mut s = String::new();
            push_segment(&mut s, &classes[i]);
            push_part(&mut segments, s);
            proof {
                assert(classes@.take(i + 1).map_values(|c: ClassLine| class_segment(c)) =~= classes@.take(
                    i as int,
                ).map_values(|c: ClassLine| class_segment(c)).push(class_segment(classes@[i as int])));
            }
            i = i + 1;
        }
        proof {
            assert(classes@.take(classes@.len() as int) =~= classes@);
        }
        let joined = join_strings(&segments, " / ");
        push_part(&mut parts, joined);
        assert(views(parts@) =~= class_parts(total_level, classes@));
    }
    proof {
        assert(views(parts@) =~= class_parts(total_level, classes@));
    }
    let ghost head = views(parts@);
    match species {
        Some(n) => push_part(&mut parts, n.clone()),
        None => {},
    }
    match background {
        Some(n) => push_part(&mut parts, n.clone()),
        None => {},
    }
    proof {
        assert(views(parts@) =~= class_parts(total_level, classes@) + opt_part(*species) + opt_part(*background));
    }
    join_strings(&parts, " \u{00B7} ")
}

/// A character card's subtitle: `"Level <level> <class> · <species>"`, with
/// placeholders for an unknown class or species.
pub fn card_subtitle(level: u8, class_name: &Option<String>, species_name: &Option<String>) -> (r: String)
    ensures
        r@ == "Level "@ + decimal(level as nat) + seq![' '] + match *class_name {
            Some(c) => c@,
            None => "Unknown class"@,
        } + " \u{00B7} "@ + match *species_name {
            Some(s) => s@,
            None => "Unknown species"@,
        },
{
    let mut s = String::new();
    push_str(&mut s, "Level ");
    push_decimal(&mut s, level as u64);
    push_char(&mut s, ' ');
    match class_name {
        Some(c) => push_str(&mut s, c.as_str()),
        None => push_str(&mut s, "Unknown class"),
    }
    push_str(&mut s, " \u{00B7} ");
    match species_name {
        Some(n) => push_str(&mut s, n.as_str()),
        None => push_str(&mut s, "Unknown species"),
    }
    proof {
        assert(s@ =~= "Level "@ + decimal(level as nat) + seq![' '] + match *class_name {
            Some(c) => c@,
            None => "Unknown class"@,
        } + " \u{00B7} "@ + match *species_name {
            Some(n) => n@,
            None => "Unknown species"@,
        });
    }
    s
}

// ---------------------------------------------------------------------------
// Lists
// ---------------------------------------------------------------------------

/// `items` without repeats, each kept at its first occurrence.
pub open spec fn first_occurrences(items: Seq<String>) -> Seq<String>
    decreases items.len(),
{
    if items.len() == 0 {
        seq![]
    } else {
        let d = first_occurrences(items.drop_last());
        if pool_has(d, items.last()) { d } else { d.push(items.last()) }
    }
}

/// Armor and weapon proficiencies combined across classes, without repeats.
pub fn dedupe_keep_first(items: Vec<String>) -> (r: Vec<String>)
    ensures
        r@ == first_occurrences(items@),
{
    let ghost all = items@;
    let total = items.len();
    let mut r: Vec<String> = Vec::new();
    let mut i: usize = 0;
    for item in it: items.into_iter()
        invariant
            all == it.seq(),
            i == it.index(),
            i <= all.len(),
            total == all.len(),
            r@ == first_occurrences(all.take(i as int)),
    {
        proof {
            assert(item == all[i as int]);
            assert(all.take(i + 1).drop_last() =~= all.take(i as int));
            assert(all.take(i + 1).last() == item);
        }
        if !crate::matching::pool_contains(&r, &item) {
            r.push(item);
        }
        i = i + 1;
    }
    proof {
        assert(all.take(all.len() as int) =~= all);
    }
    r
}

/// The kept list has no repeats.
pub proof fn lemma_first_occurrences_distinct(items: Seq<String>)
    ensures
        forall|a: int, b: int|
            0 <= a < b < first_occurrences(items).len() ==> (#[trigger] first_occurrences(items)[a])@ != (
            #[trigger] first_occurrences(items)[b])@,
    decreases items.len(),
{
    if items.len() > 0 {
        lemma_first_occurrences_distinct(items.drop_last());
        let d = first_occurrences(items.drop_last());
        if !pool_has(d, items.last()) {
            let r = first_occurrences(items);
            assert forall|a: int, b: int| 0 <= a < b < r.len() implies (#[trigger] r[a])@ != (#[trigger] r[b])@ by {
                if b == r.len() - 1 {
                    assert(r[a] == d[a]);
                } else {
                    assert(r[a] == d[a]);
                    assert(r[b] == d[b]);
                }
            }
        }
    }
}

/// `"Level <n>: <count>"` for each spell level (1-based) with slots.
pub open spec fn slot_lines_spec(counts: Seq<u8>) -> Seq<Seq<char>>
    decreases counts.len(),
{
    if counts.len() == 0 {
        seq![]
    } else {
        let n = counts.len() - 1;
        let prev = slot_lines_spec(counts.drop_last());
        if counts[n] > 0 {
            prev.push("Level "@ + decimal((n + 1) as nat) + ": "@ + decimal(counts[n] as nat))
        } else {
            prev
        }
    }
}

/// Spell slot lines of the sheet's Spells card.
pub fn slot_lines(counts: &[u8]) -> (r: Vec<String>)
    ensures
        views(r@) == slot_lines_spec(counts@),
{
    let mut r: Vec<String> = Vec::new();
    let mut i: usize = 0;
    while i < counts.len()
        invariant
            i <= counts@.len(),
            views(r@) == slot_lines_spec(counts@.take(i as int)),
        decreases counts@.len() - i,
    {
        proof {
            assert(counts@.take(i + 1).drop_last() =~= counts@.take(i as int));
        }
        if counts[i] > 0 {
            let mut s = String::new();
            push_str(&mut s, "Level ");
            push_decimal(&mut s, i as u64 + 1);
            push_str(&mut s, ": ");
            push_decimal(&mut s, counts[i] as u64);
            push_part(&mut r, s);
        }
        i = i + 1;
    }
    proof {
        assert(counts@.take(counts@.len() as int) =~= counts@);
    }
    r
}

/// A known spell: `"<name> (L<level> <school>)"`; a granted cantrip reads
/// `"<name> (Cantrip)"`.
pub open spec fn spell_line_text(name: Seq<char>, level: u8, school: Seq<char>, cantrip_label: bool) -> Seq<char> {
    if cantrip_label && level == 0 {
        name + " (Cantrip)"@
    } else {
        name + " (L"@ + decimal(level as nat) + seq![' '] + school + seq![')']
    }
}

/// A spell's line on the sheet (`cantrip_label` for the granted-spells list).
pub fn spell_line(name: &String, level: u8, school: &String, cantrip_label: bool) -> (r: String)
    ensures
        r@ == spell_line_text(name@, level, school@, cantrip_label),
{
    let mut s = name.clone();
    if cantrip_label && level == 0 {
        push_str(&mut s, " (Cantrip)");
    } else {
        push_str(&mut s, " (L");
        push_decimal(&mut s, level as u64);
        push_char(&mut s, ' ');
        push_str(&mut s, school.as_str());
        push_char(&mut s, ')');
    }
    proof {
        assert(s@ =~= spell_line_text(name@, level, school@, cantrip_label));
    }
    s
}

/// A caster's spellcasting line: `"Save DC <dc> · Attack <+attack>"`, led by
/// the class name when the character has several caster classes.
pub fn casting_line(save_dc: i64, attack: i64, class_name: &String, multiple_casters: bool) -> (r: String)
    ensures
        r@ == (if multiple_casters { class_name@ + ": "@ } else { seq![] }) + "Save DC "@ + signed_decimal(save_dc as int)
            + " \u{00B7} Attack "@ + plus_signed(attack as int),
{
    let mut s = String::new();
    if multiple_casters {
        push_str(&mut s, class_name.as_str());
        push_str(&mut s, ": ");
    }
    push_str(&mut s, "Save DC ");
    crate::text::push_signed_decimal(&mut s, save_dc);
    push_str(&mut s, " \u{00B7} Attack ");
    push_plus_signed(&mut s, attack);
    proof {
        assert(s@ =~= (if multiple_casters { class_name@ + ": "@ } else { seq![] }) + "Save DC "@ + signed_decimal(
            save_dc as int,
        ) + " \u{00B7} Attack "@ + plus_signed(attack as int));
    }
    s
}

// ---------------------------------------------------------------------------
// Class pages
// ---------------------------------------------------------------------------

/// Caster kind shown after the spellcasting ability.
pub open spec fn caster_suffix(progression: Option<Seq<char>>) -> Seq<char> {
    match progression {
        Some(p) => if p == "full"@ {
            " (full caster)"@
        } else if p == "half"@ || p == "artificer"@ {
            " (half caster)"@
        } else if p == "third"@ {
            " (third caster)"@
        } else if p == "pact"@ {
            " (pact magic)"@
        } else {
            seq![]
        },
        None => seq![],
    }
}

fn eq_lit(s: &String, lit: &str) -> (r: bool)
    ensures
        r == (s@ == lit@),
{
    *s == String::from_str(lit)
}

/// The class page's spellcasting line: the ability's label, then the caster kind.
pub fn spellcasting_label(ability_label: &String, progression: &Option<String>) -> (r: String)
    ensures
        r@ == ability_label@ + caster_suffix(
            match *progression {
                Some(p) => Some(p@),
                None => None,
            },
        ),
{
    let mut s = ability_label.clone();
    match progression {
        Some(p) => {
            if eq_lit(p, "full") {
                push_str(&mut s, " (full caster)");
            } else if eq_lit(p, "half") || eq_lit(p, "artificer") {
                push_str(&mut s, " (half caster)");
            } else if eq_lit(p, "third") {
                push_str(&mut s, " (third caster)");
            } else if eq_lit(p, "pact") {
                push_str(&mut s, " (pact magic)");
            }
        },
        None => {},
    }
    proof {
        assert(s@ =~= ability_label@ + caster_suffix(
            match *progression {
                Some(p) => Some(p@),
                None => None,
            },
        ));
    }
    s
}

/// A feature's name and the class level that grants it.
pub struct FeatureEntry {
    pub name: String,
    pub level: u8,
}

/// Names of the features granted at `level`, in order.
pub open spec fn names_at(features: Seq<FeatureEntry>, level: u8) -> Seq<Seq<char>>
    decreases features.len(),
{
    if features.len() == 0 {
        seq![]
    } else {
        let prev = names_at(features.drop_last(), level);
        if features.last().level == level { prev.push(features.last().name@) } else { prev }
    }
}

/// The progression table's Features cell: the names granted at `level`
/// joined with `", "`, or an em dash when there are none.
pub fn features_cell(features: &[FeatureEntry], level: u8) -> (r: String)
    ensures
        r@ == (if names_at(features@, level).len() == 0 { "\u{2014}"@ } else { join(names_at(features@, level), ", "@) }),
{
    let mut names: Vec<String> = Vec::new();
    let mut i: usize = 0;
    while i < features.len()
        invariant
            i <= features@.len(),
            views(names@) == names_at(features@.take(i as int), level),
        decreases features@.len() - i,
    {
        proof {
            assert(features@.take(i + 1).drop_last() =~= features@.take(i as int));
        }
        if features[i].level == level {
            push_part(&mut names, features[i].name.clone());
        }
        i = i + 1;
    }
    proof {
        assert(features@.take(features@.len() as int) =~= features@);
    }
    if names.len() == 0 {
        let mut s = String::new();
        push_str(&mut s, "\u{2014}");
        s
    } else {
        join_strings(&names, ", ")
    }
}

/// A progression table cell: row `level - 1`, column `col` of a column
/// group, or an em dash when the group has no such cell.
pub fn table_cell(rows: &Vec<Vec<String>>, level: u8, col: usize) -> (r: String)
    requires
        level >= 1,
    ensures
        r@ == (if (level - 1) < rows@.len() && col < rows@[level - 1]@.len() {
            rows@[level - 1]@[col as int]@
        } else {
            "\u{2014}"@
        }),
{
    let row = (level - 1) as usize;
    if row < rows.len() && col < rows[row].len() {
        rows[row][col].clone()
    } else {
        let mut s = String::new();
        push_str(&mut s, "\u{2014}");
        s
    }
}

// ---------------------------------------------------------------------------
// Spells by level
// ---------------------------------------------------------------------------

/// Positions among the first `n` spells whose level is `level`, in order.
pub open spec fn positions_at(levels: Seq<u8>, level: u8, n: int) -> Seq<usize>
    decreases n,
{
    if n <= 0 {
        seq![]
    } else if levels[n - 1] == level {
        positions_at(levels, level, n - 1).push((n - 1) as usize)
    } else {
        positions_at(levels, level, n - 1)
    }
}

/// The spell levels below `upto` that some spell has, ascending, each with
/// the positions of its spells in order.
pub open spec fn level_groups(levels: Seq<u8>, upto: int) -> Seq<(u8, Seq<usize>)>
    decreases upto,
{
    if upto <= 0 {
        seq![]
    } else {
        let lv = (upto - 1) as u8;
        let here = positions_at(levels, lv, levels.len() as int);
        if here.len() == 0 {
            level_groups(levels, upto - 1)
        } else {
            level_groups(levels, upto - 1).push((lv, here))
        }
    }
}

/// The spells' positions keyed by level: each level some spell has, with the
/// positions of its spells in list order.
fn positions_by_level(levels: &[u8]) -> (m: BTreeMap<u8, Vec<usize>>)
    ensures
        forall|lv: u8| #[trigger] m@.contains_key(lv) <==> positions_at(levels@, lv, levels@.len() as int).len() > 0,
        forall|lv: u8| m@.contains_key(lv) ==> (#[trigger] m@[lv])@ == positions_at(levels@, lv, levels@.len() as int),
{
    let mut m: BTreeMap<u8, Vec<usize>> = BTreeMap::new();
    let mut i: usize = 0;
    while i < levels.len()
        invariant
            i <= levels@.len(),
            forall|lv: u8| #[trigger] m@.contains_key(lv) <==> positions_at(levels@, lv, i as int).len() > 0,
            forall|lv: u8| m@.contains_key(lv) ==> (#[trigger] m@[lv])@ == positions_at(levels@, lv, i as int),
        decreases levels@.len() - i,
    {
        let lv = levels[i];
        let mut here = match m.remove(&lv) {
            Some(v) => v,
            None => Vec::new(),
        };
        here.push(i);
        m.insert(lv, here);
        proof {
            assert forall|l: u8| #[trigger] m@.contains_key(l) <==> positions_at(levels@, l, i + 1).len() > 0 by {
                if l != lv {
                    assert(positions_at(levels@, l, i + 1) == positions_at(levels@, l, i as int));
                }
            }
        }
        i = i + 1;
    }
    m
}

/// The Spells tab's sections: each spell level that has spells, ascending
/// (cantrips first), with the positions of its spells in list order.
pub fn spells_by_level(levels: &[u8]) -> (r: Vec<(u8, Vec<usize>)>)
    ensures
        r@.map_values(|g: (u8, Vec<usize>)| (g.0, g.1@)) == level_groups(levels@, 256),
{
    let mut by_level = positions_by_level(levels);
    let mut r: Vec<(u8, Vec<usize>)> = Vec::new();
    let mut lv: u16 = 0;
    while lv < 256
        invariant
            lv <= 256,
            forall|l: u8| #[trigger] by_level@.contains_key(l) ==> l >= lv,
            forall|l: u8|
                l >= lv ==> (#[trigger] by_level@.contains_key(l) <==> positions_at(levels@, l, levels@.len() as int).len()
                    > 0),
            forall|l: u8| by_level@.contains_key(l) ==> (#[trigger] by_level@[l])@ == positions_at(levels@, l, levels@.len() as int),
            r@.map_values(|g: (u8, Vec<usize>)| (g.0, g.1@)) == level_groups(levels@, lv as int),
        decreases 256 - lv,
    {
        let ghost before = r@;
        let ghost old_map = by_level@;
        let l = lv as u8;
        match by_level.remove(&l) {
            Some(here) => {
                r.push((l, here));
                proof {
                    assert(r@.map_values(|g: (u8, Vec<usize>)| (g.0, g.1@)) =~= before.map_values(
                        |g: (u8, Vec<usize>)| (g.0, g.1@),
                    ).push((l, old_map[l]@)));
                }
            },
            None => {},
        }
        lv = lv + 1;
    }
    r
}

/// Heading of a Spells tab section: `"Cantrips"`, else `"Level <n>"`.
pub fn spell_level_heading(level: u8) -> (r: String)
    ensures
        r@ == (if level == 0 { "Cantrips"@ } else { "Level "@ + decimal(level as nat) }),
{
    let mut s = String::new();
    if level == 0 {
        push_str(&mut s, "Cantrips");
    } else {
        push_str(&mut s, "Level ");
        push_decimal(&mut s, level as u64);
    }
    s
}

/// Each spell is listed exactly once in the Spells tab, under its own level,
/// and the sections come in ascending level order.
pub proof fn lemma_spells_listed_once_under_their_level(levels: Seq<u8>, i: int)
    requires
        0 <= i < levels.len(),
        levels.len() <= usize::MAX,
    ensures
        exists|g: int| 0 <= g < level_groups(levels, 256).len() && (#[trigger] level_groups(levels, 256)[g]).0
            == levels[i] && level_groups(levels, 256)[g].1.contains(i as usize),
        forall|g: int, h: int|
            0 <= g < h < level_groups(levels, 256).len() ==> (#[trigger] level_groups(levels, 256)[g]).0 < (
            #[trigger] level_groups(levels, 256)[h]).0,
        forall|g: int, a: int|
            0 <= g < level_groups(levels, 256).len() && 0 <= a < level_groups(levels, 256)[g].1.len() ==> levels[(
            #[trigger] level_groups(levels, 256)[g].1[a]) as int] == level_groups(levels, 256)[g].0,
{
    lemma_groups(levels, 256);
    lemma_positions(levels, levels[i], levels.len() as int);
    let lv = levels[i];
    assert(positions_at(levels, lv, levels.len() as int).contains(i as usize));
    assert(level_groups(levels, 256).contains((lv, positions_at(levels, lv, levels.len() as int))));
    let g = choose|g: int| 0 <= g < level_groups(levels, 256).len() && level_groups(levels, 256)[g] == (
        lv,
        positions_at(levels, lv, levels.len() as int),
    );
    assert(level_groups(levels, 256)[g].0 == levels[i]);
    assert forall|g2: int, a: int|
        0 <= g2 < level_groups(levels, 256).len() && 0 <= a < level_groups(levels, 256)[g2].1.len() implies levels[(
        #[trigger] level_groups(levels, 256)[g2].1[a]) as int] == level_groups(levels, 256)[g2].0 by {
        lemma_positions(levels, level_groups(levels, 256)[g2].0, levels.len() as int);
    }
}

proof fn lemma_positions(levels: Seq<u8>, level: u8, n: int)
    requires
        0 <= n <= levels.len(),
        levels.len() <= usize::MAX,
    ensures
        forall|i: int| 0 <= i < n && levels[i] == level ==> positions_at(levels, level, n).contains(i as usize),
        forall|a: int| 0 <= a < positions_at(levels, level, n).len() ==> (#[trigger] positions_at(levels, level, n)[a]) < n
            && levels[positions_at(levels, level, n)[a] as int] == level,
    decreases n,
{
    if n > 0 {
        lemma_positions(levels, level, n - 1);
        let p = positions_at(levels, level, n - 1);
        if levels[n - 1] == level {
            assert(positions_at(levels, level, n) == p.push((n - 1) as usize));
            assert forall|i: int| 0 <= i < n && levels[i] == level implies positions_at(levels, level, n).contains(
                i as usize,
            ) by {
                if i < n - 1 {
                    let k = choose|k: int| 0 <= k < p.len() && p[k] == i as usize;
                    assert(positions_at(levels, level, n)[k] == i as usize);
                } else {
                    assert(positions_at(levels, level, n)[p.len() as int] == i as usize);
                }
            }
            assert forall|a: int| 0 <= a < positions_at(levels, level, n).len() implies (#[trigger] positions_at(
                levels,
                level,
                n,
            )[a]) < n && levels[positions_at(levels, level, n)[a] as int] == level by {
                if a < p.len() {
                    assert(positions_at(levels, level, n)[a] == p[a]);
                }
            }
        } else {
            assert(positions_at(levels, level, n) == p);
        }
    }
}

proof fn lemma_groups(levels: Seq<u8>, upto: int)
    requires
        0 <= upto <= 256,
    ensures
        forall|lv: u8|
            lv < upto && (#[trigger] positions_at(levels, lv, levels.len() as int)).len() > 0 ==> level_groups(
                levels,
                upto,
            ).contains((lv, positions_at(levels, lv, levels.len() as int))),
        forall|g: int| 0 <= g < level_groups(levels, upto).len() ==> (#[trigger] level_groups(levels, upto)[g]).0 < upto,
        forall|g: int, h: int|
            0 <= g < h < level_groups(levels, upto).len() ==> (#[trigger] level_groups(levels, upto)[g]).0 < (
            #[trigger] level_groups(levels, upto)[h]).0,
        forall|g: int|
            0 <= g < level_groups(levels, upto).len() ==> (#[trigger] level_groups(levels, upto)[g]).1 == positions_at(
                levels,
                level_groups(levels, upto)[g].0,
                levels.len() as int,
            ),
    decreases upto,
{
    if upto > 0 {
        lemma_groups(levels, upto - 1);
        let prev = level_groups(levels, upto - 1);
        let lv = (upto - 1) as u8;
        let here = positions_at(levels, lv, levels.len() as int);
        if here.len() > 0 {
            let cur = level_groups(levels, upto);
            assert(cur == prev.push((lv, here)));
            assert forall|l: u8|
                l < upto && (#[trigger] positions_at(levels, l, levels.len() as int)).len() > 0 implies cur.contains(
                (l, positions_at(levels, l, levels.len() as int)),
            ) by {
                if l < upto - 1 {
                    let k = choose|k: int| 0 <= k < prev.len() && prev[k] == (l, positions_at(levels, l, levels.len() as int));
                    assert(cur[k] == prev[k]);
                } else {
                    assert(cur[prev.len() as int] == (lv, here));
                }
            }
            assert forall|g: int, h: int| 0 <= g < h < cur.len() implies (#[trigger] cur[g]).0 < (#[trigger] cur[h]).0 by {
                if h < prev.len() {
                    assert(cur[g] == prev[g]);
                    assert(cur[h] == prev[h]);
                } else {
                    assert(cur[g] == prev[g]);
                }
            }
            assert forall|g: int| 0 <= g < cur.len() implies (#[trigger] cur[g]).1 == positions_at(
                levels,
                cur[g].0,
                levels.len() as int,
            ) by {
                if g < prev.len() {
                    assert(cur[g] == prev[g]);
                }
            }
            assert forall|g: int| 0 <= g < cur.len() implies (#[trigger] cur[g]).0 < upto by {
                if g < prev.len() {
                    assert(cur[g] == prev[g]);
                }
            }
        }
    }
}

// ---------------------------------------------------------------------------
// Saving throws, skills and ASI lines
// ---------------------------------------------------------------------------

/// The character's classes the sheet can show, among the first `n`, in
/// order: each paired with the first class detail of its id; a class with
/// no detail (one since removed from the compendium) is left out.
pub open spec fn resolved_classes(classes: Seq<ClassLevel>, detail_ids: Seq<String>, n: int) -> Seq<(usize, usize)>
    decreases n,
{
    if n <= 0 {
        seq![]
    } else {
        resolved_classes(classes, detail_ids, n - 1) + match first_index(detail_ids, classes[n - 1].class_id@) {
            Some(d) => seq![((n - 1) as usize, d as usize)],
            None => seq![],
        }
    }
}

/// Pairs each of the character's classes that has a class detail (by id)
/// with that detail's position, in class order, skipping dangling classes.
pub fn resolve_classes(classes: &[ClassLevel], detail_ids: &Vec<String>) -> (r: Vec<(usize, usize)>)
    ensures
        r@ == resolved_classes(classes@, detail_ids@, classes@.len() as int),
        forall|j: int| 0 <= j < r@.len() ==> (#[trigger] r@[j]).0 < classes@.len() && r@[j].1 < detail_ids@.len(),
{
    let mut r: Vec<(usize, usize)> = Vec::new();
    let mut i: usize = 0;
    while i < classes.len()
        invariant
            i <= classes@.len(),
            r@ == resolved_classes(classes@, detail_ids@, i as int),
            forall|j: int| 0 <= j < r@.len() ==> (#[trigger] r@[j]).0 < i && r@[j].1 < detail_ids@.len(),
        decreases classes@.len() - i,
    {
        let ghost before = r@;
        match find_pick(detail_ids, &classes[i].class_id) {
            Some(d) => {
                r.push((i, d));
                proof {
                    assert(r@ =~= before + seq![(i, d)]);
                }
            },
            None => {
                proof {
                    assert(before + Seq::<(usize, usize)>::empty() =~= before);
                }
            },
        }
        i = i + 1;
    }
    r
}

/// The saving throws the sheet marks proficient: those of the primary class,
/// the first of the character's classes that has a class detail; none when
/// no class resolves. Classes taken later add none.
pub open spec fn primary_saves_spec(
    classes: Seq<ClassLevel>,
    detail_ids: Seq<String>,
    detail_saves: Seq<Vec<String>>,
) -> Seq<Seq<char>> {
    let res = resolved_classes(classes, detail_ids, classes.len() as int);
    if res.len() > 0 {
        views(detail_saves[res[0].1 as int]@)
    } else {
        seq![]
    }
}

/// The primary class's saving throws (`detail_saves[d]` lists detail `d`'s).
pub fn primary_saves(classes: &[ClassLevel], detail_ids: &Vec<String>, detail_saves: &Vec<Vec<String>>) -> (r: Vec<
    String,
>)
    requires
        detail_saves@.len() == detail_ids@.len(),
    ensures
        views(r@) == primary_saves_spec(classes@, detail_ids@, detail_saves@),
{
    let res = resolve_classes(classes, detail_ids);
    if res.len() > 0 {
        crate::text::clone_strings(&detail_saves[res[0].1])
    } else {
        Vec::new()
    }
}

/// `code` is one of `saves`.
pub open spec fn save_proficient(saves: Seq<String>, code: Seq<char>) -> bool {
    exists|k: int| 0 <= k < saves.len() && #[trigger] saves[k]@ == code
}

/// The sheet's six saving throws in sheet order: ability code, modifier
/// (`mods[i]`, plus the proficiency bonus when proficient), and whether
/// proficient, i.e. listed in `saves` (the primary class's saving throws).
pub fn saving_throws(saves: &Vec<String>, mods: &[i8], proficiency: u8) -> (r: Vec<(&'static str, i16, bool)>)
    requires
        mods@.len() == 6,
    ensures
        r@.len() == 6,
        forall|i: int|
            0 <= i < 6 ==> (#[trigger] r@[i]).0@ == ability_codes()[i] && r@[i].2 == save_proficient(
                saves@,
                ability_codes()[i],
            ) && r@[i].1 == mods@[i] + (if r@[i].2 { proficiency as int } else { 0 }),
{
    let codes = ["str", "dex", "con", "int", "wis", "cha"];
    let mut r: Vec<(&'static str, i16, bool)> = Vec::new();
    let mut i: usize = 0;
    while i < 6
        invariant
            i <= 6,
            mods@.len() == 6,
            forall|j: int| 0 <= j < 6 ==> (#[trigger] codes@[j])@ == ability_codes()[j],
            r@.len() == i,
            forall|j: int|
                0 <= j < i ==> (#[trigger] r@[j]).0@ == ability_codes()[j] && r@[j].2 == save_proficient(
                    saves@,
                    ability_codes()[j],
                ) && r@[j].1 == mods@[j] + (if r@[j].2 { proficiency as int } else { 0 }),
        decreases 6 - i,
    {
        let code = codes[i];
        let proficient = pool_contains(saves, &String::from_str(code));
        proof {
            assert(code@ == ability_codes()[i as int]);
        }
        let modifier = saving_throw_modifier(mods[i], proficiency, proficient);
        r.push((code, modifier, proficient));
        i = i + 1;
    }
    r
}

/// Whether the character is proficient in skill `name` (a fixed grant, a
/// skill pick or a custom skill) and has expertise in it.
pub fn skill_flags(
    name: &String,
    fixed: &Vec<String>,
    choices: &Vec<String>,
    custom: &Vec<String>,
    expertise: &Vec<String>,
) -> (r: (bool, bool))
    ensures
        r.0 == (pool_has(fixed@, *name) || pool_has(choices@, *name) || pool_has(custom@, *name)),
        r.1 == pool_has(expertise@, *name),
{
    (
        pool_contains(fixed, name) || pool_contains(choices, name) || pool_contains(custom, name),
        pool_contains(expertise, name),
    )
}

/// Keys `(class id, ASI level)` of the sheet's ASI slots, class by class
/// among the first `n` classes: a class with a class detail has one per ASI
/// level of that detail (`detail_levels[d]`) up to the class's level; a
/// dangling class has none.
pub open spec fn sheet_asi_keys_spec(
    classes: Seq<ClassLevel>,
    detail_ids: Seq<String>,
    detail_levels: Seq<Vec<u8>>,
    n: int,
) -> Seq<(Seq<char>, u8)>
    decreases n,
{
    if n <= 0 {
        seq![]
    } else {
        sheet_asi_keys_spec(classes, detail_ids, detail_levels, n - 1) + match first_index(
            detail_ids,
            classes[n - 1].class_id@,
        ) {
            Some(d) => class_asi_keys(classes[n - 1].class_id@, detail_levels[d]@, classes[n - 1].level),
            None => seq![],
        }
    }
}

/// The keys of the sheet's ASI slots, in the order the flat choice list
/// fills them.
pub fn sheet_asi_keys(classes: &[ClassLevel], detail_ids: &Vec<String>, detail_levels: &[Vec<u8>]) -> (r: Vec<
    (String, u8),
>)
    requires
        detail_levels@.len() == detail_ids@.len(),
    ensures
        key_views(r@) == sheet_asi_keys_spec(classes@, detail_ids@, detail_levels@, classes@.len() as int),
{
    let mut r: Vec<(String, u8)> = Vec::new();
    proof {
        assert(key_views(r@) =~= Seq::<(Seq<char>, u8)>::empty());
    }
    let mut i: usize = 0;
    while i < classes.len()
        invariant
            i <= classes@.len(),
            detail_levels@.len() == detail_ids@.len(),
            key_views(r@) == sheet_asi_keys_spec(classes@, detail_ids@, detail_levels@, i as int),
        decreases classes@.len() - i,
    {
        match find_pick(detail_ids, &classes[i].class_id) {
            Some(d) => {
                push_class_asi_keys(&mut r, &classes[i].class_id, &detail_levels[d], classes[i].level);
            },
            None => {
                proof {
                    assert(key_views(r@) + Seq::<(Seq<char>, u8)>::empty() =~= key_views(r@));
                }
            },
        }
        i = i + 1;
    }
    r
}

/// The last of the first `m` slots whose key is `key`.
pub open spec fn last_slot(keys: Seq<(String, u8)>, key: (Seq<char>, u8), m: int) -> Option<int>
    decreases m,
{
    if m <= 0 {
        None
    } else if (keys[m - 1].0@, keys[m - 1].1) == key {
        Some(m - 1)
    } else {
        last_slot(keys, key, m - 1)
    }
}

/// The ability increases shown for the first `n` ASI slot keys, in key order.
/// The flat choice list fills the keys slot by slot (up to the shorter
/// list), and a key shows the choice last filled under an equal key; a feat,
/// an empty slot or a key never filled shows no row.
pub open spec fn asi_rows_spec(
    keys: Seq<(String, u8)>,
    choices: Seq<Option<AsiChoice>>,
    n: int,
) -> Seq<(Seq<char>, u8, Seq<Seq<char>>)>
    decreases n,
{
    if n <= 0 {
        seq![]
    } else {
        let m = if keys.len() < choices.len() { keys.len() as int } else { choices.len() as int };
        asi_rows_spec(keys, choices, n - 1) + match last_slot(keys, (keys[n - 1].0@, keys[n - 1].1), m) {
            Some(s) => match choices[s] {
                Some(AsiChoice::Abilities { codes }) => seq![(keys[n - 1].0@, keys[n - 1].1, views(codes@))],
                _ => seq![],
            },
            None => seq![],
        }
    }
}

/// Contents of ASI rows.
pub open spec fn asi_row_views(rows: Seq<(String, u8, Vec<String>)>) -> Seq<(Seq<char>, u8, Seq<Seq<char>>)> {
    rows.map_values(|r: (String, u8, Vec<String>)| (r.0@, r.1, views(r.2@)))
}

fn last_slot_of(keys: &[(String, u8)], j: usize, m: usize) -> (r: Option<usize>)
    requires
        j < keys@.len(),
        m <= keys@.len(),
    ensures
        match r {
            Some(s) => s < m && last_slot(keys@, (keys@[j as int].0@, keys@[j as int].1), m as int) == Some(s as int),
            None => last_slot(keys@, (keys@[j as int].0@, keys@[j as int].1), m as int) is None,
        },
{
    let ghost key = (keys@[j as int].0@, keys@[j as int].1);
    let mut found: Option<usize> = None;
    let mut t: usize = 0;
    while t < m
        invariant
            t <= m,
            m <= keys@.len(),
            j < keys@.len(),
            key == (keys@[j as int].0@, keys@[j as int].1),
            match found {
                Some(s) => s < t && last_slot(keys@, key, t as int) == Some(s as int),
                None => last_slot(keys@, key, t as int) is None,
            },
        decreases m - t,
    {
        if keys[t].0 == keys[j].0 && keys[t].1 == keys[j].1 {
            found = Some(t);
        }
        t = t + 1;
    }
    found
}

/// The sheet's ASI rows: for each ASI slot key (`sheet_asi_keys`), the
/// ability increases of the choice the flat list gives it.
pub fn asi_increase_rows(keys: &[(String, u8)], choices: &[Option<AsiChoice>]) -> (r: Vec<(String, u8, Vec<String>)>)
    ensures
        asi_row_views(r@) == asi_rows_spec(keys@, choices@, keys@.len() as int),
{
    let m = if keys.len() < choices.len() { keys.len() } else { choices.len() };
    let mut r: Vec<(String, u8, Vec<String>)> = Vec::new();
    assert(asi_row_views(r@) =~= Seq::<(Seq<char>, u8, Seq<Seq<char>>)>::empty());
    let mut j: usize = 0;
    while j < keys.len()
        invariant
            j <= keys@.len(),
            m == (if keys@.len() < choices@.len() { keys@.len() as int } else { choices@.len() as int }),
            asi_row_views(r@) == asi_rows_spec(keys@, choices@, j as int),
        decreases keys@.len() - j,
    {
        let ghost before = r@;
        match last_slot_of(keys, j, m) {
            Some(s) => {
                match &choices[s] {
                    Some(AsiChoice::Abilities { codes }) => {
                        let copy = crate::text::clone_strings(codes);
                        r.push((keys[j].0.clone(), keys[j].1, copy));
                        proof {
                            assert(asi_row_views(r@) =~= asi_row_views(before) + seq![
                                (keys@[j as int].0@, keys@[j as int].1, views(codes@)),
                            ]);
                        }
                    },
                    _ => {
                        proof {
                            assert(asi_row_views(before) + Seq::<(Seq<char>, u8, Seq<Seq<char>>)>::empty()
                                =~= asi_row_views(before));
                        }
                    },
                }
            },
            None => {
                proof {
                    assert(asi_row_views(before) + Seq::<(Seq<char>, u8, Seq<Seq<char>>)>::empty() =~= asi_row_views(
                        before,
                    ));
                }
            },
        }
        j = j + 1;
    }
    r
}

/// `"+1 <label>"` for each increase, joined with `", "`.
pub open spec fn increases_text(labels: Seq<String>) -> Seq<char> {
    join(labels.map_values(|l: String| "+1 "@ + l@), ", "@)
}

/// An ASI line of the sheet: `"<class> level <n>: +1 A, +1 B"` when the
/// character has several classes, else `"Level <n>: +1 A, +1 B"`
/// (`labels`: the increased abilities' labels).
pub fn asi_line(class_name: &String, multiclass: bool, level: u8, labels: &Vec<String>) -> (r: String)
    ensures
        r@ == (if multiclass { class_name@ + " level "@ } else { "Level "@ }) + decimal(level as nat) + ": "@
            + increases_text(labels@),
{
    let mut parts: Vec<String> = Vec::new();
    let mut i: usize = 0;
    while i < labels.len()
        invariant
            i <= labels@.len(),
            views(parts@) == labels@.take(i as int).map_values(|l: String| "+1 "@ + l@),
        decreases labels@.len() - i,
    {
        let mut p = String::new();
        push_str(&mut p, "+1 ");
        push_str(&mut p, labels[i].as_str());
        let ghost before = parts@;
        parts.push(p);
        proof {
            assert(labels@.take(i + 1).map_values(|l: String| "+1 "@ + l@) =~= labels@.take(i as int).map_values(
                |l: String| "+1 "@ + l@,
            ).push("+1 "@ + labels@[i as int]@));
            assert(views(parts@) =~= views(before).push(p@));
        }
        i = i + 1;
    }
    proof {
        assert(labels@.take(labels@.len() as int) =~= labels@);
    }
    let mut s = String::new();
    if multiclass {
        push_str(&mut s, class_name.as_str());
        push_str(&mut s, " level ");
    } else {
        push_str(&mut s, "Level ");
    }
    push_decimal(&mut s, level as u64);
    push_str(&mut s, ": ");
    let joined = join_strings(&parts, ", ");
    push_str(&mut s, joined.as_str());
    proof {
        assert(s@ =~= (if multiclass { class_name@ + " level "@ } else { "Level "@ }) + decimal(level as nat) + ": "@
            + increases_text(labels@));
    }
    s
}

/// A caster kind is shown for exactly the five known progressions:
/// `"full"`, `"half"`, `"artificer"`, `"third"` and `"pact"`; any other
/// progression, or none, shows no kind.
pub proof fn lemma_caster_kind_shown_for_known_progressions(p: Seq<char>)
    ensures
        caster_suffix(Some(p)).len() > 0 <==> (p == "full"@ || p == "half"@ || p == "artificer"@ || p == "third"@
            || p == "pact"@),
        caster_suffix(None).len() == 0,
{
    reveal_strlit(" (full caster)");
    reveal_strlit(" (half caster)");
    reveal_strlit(" (third caster)");
    reveal_strlit(" (pact magic)");
}

/// Half casters and artificers read alike: for any ability label, the line
/// of a `"half"` progression and that of an `"artificer"` one are both the
/// label followed by `" (half caster)"`; full casters read differently.
pub proof fn lemma_half_casters_read_alike(ability: Seq<char>)
    ensures
        ability + caster_suffix(Some("half"@)) == ability + " (half caster)"@,
        ability + caster_suffix(Some("artificer"@)) == ability + " (half caster)"@,
        ability + caster_suffix(Some("full"@)) != ability + " (half caster)"@,
{
    reveal_strlit("half");
    reveal_strlit("full");
    reveal_strlit("artificer");
    reveal_strlit(" (full caster)");
    reveal_strlit(" (half caster)");
    assert("half"@[0] != "full"@[0]);
    assert("artificer"@[0] != "full"@[0]);
    assert("artificer"@[0] != "half"@[0]);
    assert(caster_suffix(Some("half"@)) == " (half caster)"@);
    assert(caster_suffix(Some("artificer"@)) == " (half caster)"@);
    assert((ability + " (full caster)"@)[ability.len() as int + 2] != (ability + " (half caster)"@)[ability.len() as int + 2]);
}

} // verus!
