//! Small display labels used across the compendium and character pages.
use vstd::prelude::*;
use crate::counting::sum_idx;
use crate::matching::{budget, lemma_tail_nonneg, total_required};
use crate::text::{decimal, join, join_strings, push_char, push_decimal, push_str, views};

verus! {

// ---------------------------------------------------------------------------
// Optional-feature resource costs
// ---------------------------------------------------------------------------

/// A resource an optional feature spends (Ki Points, Sorcery Points, ...).
pub struct ResourceCost {
    pub name: String,
    pub amount: Option<u32>,
    pub amount_min: Option<u32>,
    pub amount_max: Option<u32>,
}

/// A resource cost built from its name and amounts.
pub fn cost(name: &str, amount: Option<u32>, min: Option<u32>, max: Option<u32>) -> (r: ResourceCost)
    ensures
        r.name@ == name@,
        r.amount == amount,
        r.amount_min == min,
        r.amount_max == max,
{
    ResourceCost { name: String::from_str(name), amount, amount_min: min, amount_max: max }
}

/// The amount shown before the resource name: the exact amount, else a
/// `min-max` range, else an open-ended `min+`, each followed by a space;
/// nothing when no amount is given.
pub open spec fn cost_amount_text(cost: ResourceCost) -> Seq<char> {
    match (cost.amount, cost.amount_min, cost.amount_max) {
        (Some(a), _, _) => decimal(a as nat).push(' '),
        (None, Some(lo), Some(hi)) => decimal(lo as nat).push('-') + decimal(hi as nat).push(' '),
        (None, Some(lo), None) => decimal(lo as nat).push('+').push(' '),
        _ => seq![],
    }
}

/// Subtitle line for an optional feature's resource cost, e.g. `"3 Ki Points"`.
pub fn optional_feature_cost_label(cost: &ResourceCost) -> (r: String)
    ensures
        r@ == cost_amount_text(*cost) + cost.name@,
{
    let mut s = String::new();
    match (cost.amount, cost.amount_min, cost.amount_max) {
        (Some(a), _, _) => {
            push_decimal(&mut s, a as u64);
            push_char(&mut s, ' ');
        },
        (None, Some(lo), Some(hi)) => {
            push_decimal(&mut s, lo as u64);
            push_char(&mut s, '-');
            push_decimal(&mut s, hi as u64);
            push_char(&mut s, ' ');
        },
        (None, Some(lo), None) => {
            push_decimal(&mut s, lo as u64);
            push_char(&mut s, '+');
            push_char(&mut s, ' ');
        },
        _ => {},
    }
    push_str(&mut s, cost.name.as_str());
    proof {
        assert(s@ =~= cost_amount_text(*cost) + cost.name@);
    }
    s
}

// ---------------------------------------------------------------------------
// Numbers
// ---------------------------------------------------------------------------

/// English ordinal suffix of `n`: `th` for 11-13 (mod 100), else `st`, `nd`,
/// `rd` for a last digit of 1, 2, 3, else `th`.
pub open spec fn ordinal_suffix(n: nat) -> Seq<char> {
    if 11 <= n % 100 <= 13 {
        seq!['t', 'h']
    } else if n % 10 == 1 {
        seq!['s', 't']
    } else if n % 10 == 2 {
        seq!['n', 'd']
    } else if n % 10 == 3 {
        seq!['r', 'd']
    } else {
        seq!['t', 'h']
    }
}

/// `n` as an English ordinal, e.g. `"1st"`, `"12th"`, `"23rd"`.
pub fn ordinal(n: u8) -> (r: String)
    ensures
        r@ == decimal(n as nat) + ordinal_suffix(n as nat),
{
    let mut s = String::new();
    push_decimal(&mut s, n as u64);
    let m = n % 100;
    let (a, b) = if 11 <= m && m <= 13 {
        ('t', 'h')
    } else if n % 10 == 1 {
        ('s', 't')
    } else if n % 10 == 2 {
        ('n', 'd')
    } else if n % 10 == 3 {
        ('r', 'd')
    } else {
        ('t', 'h')
    };
    push_char(&mut s, a);
    push_char(&mut s, b);
    proof {
        assert(s@ =~= decimal(n as nat) + ordinal_suffix(n as nat));
    }
    s
}

/// Proficiency bonus at a class level (1-20): `2 + (level - 1) / 4`.
pub open spec fn proficiency_bonus_at(level: nat) -> nat {
    2 + ((level - 1) as nat) / 4
}

/// The progression table's proficiency bonus cell, e.g. `"+3"` at level 5.
pub fn proficiency_bonus_label(level: u8) -> (r: String)
    requires
        1 <= level,
    ensures
        r@ == seq!['+'] + decimal(proficiency_bonus_at(level as nat)),
{
    let mut s = String::new();
    push_char(&mut s, '+');
    push_decimal(&mut s, 2 + ((level - 1) / 4) as u64);
    proof {
        assert(s@ =~= seq!['+'] + decimal(proficiency_bonus_at(level as nat)));
    }
    s
}

/// Cantrip/level marker next to a spell's name: `"Cantrip"` at level 0, else `"L<level>"`.
pub open spec fn level_badge_text(level: nat) -> Seq<char> {
    if level == 0 {
        "Cantrip"@
    } else {
        seq!['L'] + decimal(level)
    }
}

/// Text of the cantrip/level badge.
pub fn level_badge_label(level: u8) -> (r: String)
    ensures
        r@ == level_badge_text(level as nat),
{
    let mut s = String::new();
    if level == 0 {
        push_str(&mut s, "Cantrip");
    } else {
        push_char(&mut s, 'L');
        push_decimal(&mut s, level as u64);
    }
    proof {
        assert(s@ =~= level_badge_text(level as nat));
    }
    s
}

// ---------------------------------------------------------------------------
// Lists and styles
// ---------------------------------------------------------------------------

/// `"None"` for an empty list, else the items joined with `", "`.
pub open spec fn list_or_none_text(items: Seq<String>) -> Seq<char> {
    if items.len() == 0 {
        "None"@
    } else {
        join(views(items), ", "@)
    }
}

/// A proficiency list for display.
pub fn list_or_none(items: &Vec<String>) -> (r: String)
    ensures
        r@ == list_or_none_text(items@),
{
    if items.len() == 0 {
        let mut s = String::new();
        push_str(&mut s, "None");
        proof {
            assert(s@ =~= "None"@);
        }
        s
    } else {
        join_strings(items, ", ")
    }
}

/// The accent styles (toggle chip, feature border, name badge) of the seven
/// subclass colours, by colour index.
pub open spec fn subclass_style_of(c: int) -> (Seq<char>, Seq<char>, Seq<char>) {
    if c == 0 {
        ("btn-primary"@, "border-primary"@, "badge-primary"@)
    } else if c == 1 {
        ("btn-secondary"@, "border-secondary"@, "badge-secondary"@)
    } else if c == 2 {
        ("btn-accent"@, "border-accent"@, "badge-accent"@)
    } else if c == 3 {
        ("btn-info"@, "border-info"@, "badge-info"@)
    } else if c == 4 {
        ("btn-success"@, "border-success"@, "badge-success"@)
    } else if c == 5 {
        ("btn-warning"@, "border-warning"@, "badge-warning"@)
    } else {
        ("btn-error"@, "border-error"@, "badge-error"@)
    }
}

/// Accent styles of the `index`-th subclass, cycling through the seven colours.
pub fn subclass_style(index: usize) -> (r: (&'static str, &'static str, &'static str))
    ensures
        (r.0@, r.1@, r.2@) == subclass_style_of((index % 7) as int),
{
    let c = index % 7;
    if c == 0 {
        ("btn-primary", "border-primary", "badge-primary")
    } else if c == 1 {
        ("btn-secondary", "border-secondary", "badge-secondary")
    } else if c == 2 {
        ("btn-accent", "border-accent", "badge-accent")
    } else if c == 3 {
        ("btn-info", "border-info", "badge-info")
    } else if c == 4 {
        ("btn-success", "border-success", "badge-success")
    } else if c == 5 {
        ("btn-warning", "border-warning", "badge-warning")
    } else {
        ("btn-error", "border-error", "badge-error")
    }
}

/// CSS band class of the `index`-th added class: three bands, cycling.
pub fn class_band_class(index: usize) -> (r: &'static str)
    ensures
        r@ == (if index % 3 == 0 {
            "class-band-0"@
        } else if index % 3 == 1 {
            "class-band-1"@
        } else {
            "class-band-2"@
        }),
{
    let m = index % 3;
    if m == 0 {
        "class-band-0"
    } else if m == 1 {
        "class-band-1"
    } else {
        "class-band-2"
    }
}

/// Arrow after a sortable column heading: up when the current sort is that
/// column's ascending order, down when descending, nothing otherwise. Sort
/// orders are identified by their index in the page's list of orders.
pub fn sort_indicator(current: u32, asc: u32, desc: u32) -> (r: &'static str)
    ensures
        r@ == (if current == asc {
            " \u{25B2}"@
        } else if current == desc {
            " \u{25BC}"@
        } else {
            ""@
        }),
{
    if current == asc {
        " \u{25B2}"
    } else if current == desc {
        " \u{25BC}"
    } else {
        ""
    }
}

/// The sort order after clicking a sortable column heading: ascending
/// becomes descending; any other order (descending, or another column's)
/// becomes ascending.
pub open spec fn after_click(current: u32, asc: u32, desc: u32) -> u32 {
    if current == asc { desc } else { asc }
}

/// Clicking a sortable column heading.
pub fn toggled_sort(current: u32, asc: u32, desc: u32) -> (r: u32)
    ensures
        r == after_click(current, asc, desc),
{
    if current == asc {
        desc
    } else {
        asc
    }
}

/// Clicking a heading while another order is active sorts ascending, the
/// next click descending, the one after ascending again.
pub proof fn lemma_sort_clicks(current: u32, asc: u32, desc: u32)
    requires
        asc != desc,
        current != asc,
    ensures
        after_click(current, asc, desc) == asc,
        after_click(after_click(current, asc, desc), asc, desc) == desc,
        after_click(after_click(after_click(current, asc, desc), asc, desc), asc, desc) == asc,
{
}

/// The number shown on the Filters button: how many options are selected
/// across all filter groups (`selected[g]`: how many in group `g`).
pub fn active_filter_count(selected: &[usize]) -> (r: usize)
    requires
        total_required(selected@) <= usize::MAX,
    ensures
        r == total_required(selected@),
{
    let mut total: usize = 0;
    let mut j: usize = 0;
    while j < selected.len()
        invariant
            j <= selected@.len(),
            total as int == sum_idx(j as int, budget(selected@)),
            total_required(selected@) <= usize::MAX,
        decreases selected@.len() - j,
    {
        proof {
            lemma_tail_nonneg(selected@, j as int + 1);
        }
        total = total + selected[j];
        j = j + 1;
    }
    total
}

/// The feature types a type filter asks for: the members of every selected
/// chip, chip by chip (the Fighting Style chip stands for several types).
pub open spec fn chip_types(groups: Seq<Vec<u32>>) -> Seq<u32>
    decreases groups.len(),
{
    if groups.len() == 0 {
        seq![]
    } else {
        chip_types(groups.drop_last()) + groups.last()@
    }
}

/// The feature types of the selected type chips (types by their number).
pub fn selected_types(groups: &[Vec<u32>]) -> (r: Vec<u32>)
    ensures
        r@ == chip_types(groups@),
{
    let mut r: Vec<u32> = Vec::new();
    let mut g: usize = 0;
    while g < groups.len()
        invariant
            g <= groups@.len(),
            r@ == chip_types(groups@.take(g as int)),
        decreases groups@.len() - g,
    {
        proof {
            assert(groups@.take(g + 1).drop_last() =~= groups@.take(g as int));
        }
        let members = &groups[g];
        let ghost start = r@;
        let mut k: usize = 0;
        while k < members.len()
            invariant
                k <= members@.len(),
                r@ == start + members@.take(k as int),
            decreases members@.len() - k,
        {
            r.push(members[k]);
            proof {
                assert(r@ =~= start + members@.take(k + 1));
            }
            k = k + 1;
        }
        proof {
            assert(members@.take(members@.len() as int) =~= members@);
            assert(groups@.take(g + 1).last() == groups@[g as int]);
        }
        g = g + 1;
    }
    proof {
        assert(groups@.take(groups@.len() as int) =~= groups@);
    }
    r
}

// ---------------------------------------------------------------------------
// Spell action filters
// ---------------------------------------------------------------------------

/// How long a spell takes to cast.
#[derive(PartialEq, Eq, Structural, Clone, Copy)]
pub enum CastingType {
    Action,
    BonusAction,
    Reaction,
    /// Minutes, hours, or anything else that isn't one of the three above.
    Other,
}

/// The Actions tab's filter chips.
#[derive(PartialEq, Eq, Structural, Clone, Copy)]
pub enum ActionFilter {
    All,
    Action,
    BonusAction,
    Reaction,
}

impl ActionFilter {
    /// Chip label.
    pub fn label(&self) -> (r: &'static str)
        ensures
            r@ == match *self {
                ActionFilter::All => "All"@,
                ActionFilter::Action => "Action"@,
                ActionFilter::BonusAction => "Bonus Action"@,
                ActionFilter::Reaction => "Reaction"@,
            },
    {
        match self {
            ActionFilter::All => "All",
            ActionFilter::Action => "Action",
            ActionFilter::BonusAction => "Bonus Action",
            ActionFilter::Reaction => "Reaction",
        }
    }

    /// Whether a spell with this casting time is listed under the filter.
    pub fn matches(&self, casting_type: CastingType) -> (r: bool)
        ensures
            r == match *self {
                ActionFilter::All => true,
                ActionFilter::Action => casting_type == CastingType::Action,
                ActionFilter::BonusAction => casting_type == CastingType::BonusAction,
                ActionFilter::Reaction => casting_type == CastingType::Reaction,
            },
    {
        match self {
            ActionFilter::All => true,
            ActionFilter::Action => casting_type == CastingType::Action,
            ActionFilter::BonusAction => casting_type == CastingType::BonusAction,
            ActionFilter::Reaction => casting_type == CastingType::Reaction,
        }
    }
}

/// The proficiency bonus is +2 for levels 1 to 4 and rises by exactly one
/// every four levels: level `l` and level `l + 4` differ by one, and the
/// bonus `b` at level `l` is the one whose block of four, levels
/// `4(b - 2) + 1` to `4(b - 2) + 4`, holds `l`.
pub proof fn lemma_proficiency_bonus_every_four_levels(level: nat)
    requires
        level >= 1,
    ensures
        level <= 4 ==> proficiency_bonus_at(level) == 2,
        proficiency_bonus_at(level + 4) == proficiency_bonus_at(level) + 1,
        4 * (proficiency_bonus_at(level) - 2) + 1 <= level <= 4 * (proficiency_bonus_at(level) - 2) + 4,
{
    assert(((level + 4 - 1) as nat) / 4 == ((level - 1) as nat) / 4 + 1) by (nonlinear_arith)
        requires
            level >= 1,
    ;
    let q = ((level - 1) as nat) / 4;
    assert(4 * q <= level - 1 < 4 * q + 4) by (nonlinear_arith)
        requires
            level >= 1,
            q == ((level - 1) as nat) / 4,
    ;
}

} // verus!
