//! Ability score entry in the builder: standard array, point buy, manual, and
//! the species/custom bonus picks.
use vstd::prelude::*;
use crate::matching::pool_contains;
use crate::text::push_str;
use crate::validation::{ability_codes, AbilityBonusSource};

verus! {

/// The six ability scores.
#[derive(PartialEq, Eq, Structural, Clone, Copy)]
pub struct AbilityScores {
    pub strength: u8,
    pub dexterity: u8,
    pub constitution: u8,
    pub intelligence: u8,
    pub wisdom: u8,
    pub charisma: u8,
}

impl AbilityScores {
    /// The scores in sheet order (str, dex, con, int, wis, cha).
    pub open spec fn scores(self) -> Seq<u8> {
        seq![self.strength, self.dexterity, self.constitution, self.intelligence, self.wisdom, self.charisma]
    }

    /// Score of the ability at `index` in sheet order.
    pub fn get(&self, index: usize) -> (r: u8)
        requires
            index < 6,
        ensures
            r == self.scores()[index as int],
    {
        if index == 0 {
            self.strength
        } else if index == 1 {
            self.dexterity
        } else if index == 2 {
            self.constitution
        } else if index == 3 {
            self.intelligence
        } else if index == 4 {
            self.wisdom
        } else {
            self.charisma
        }
    }

    /// Sets the score of the ability at `index` in sheet order.
    pub fn set(&mut self, index: usize, value: u8)
        requires
            index < 6,
        ensures
            final(self).scores() == old(self).scores().update(index as int, value),
    {
        if index == 0 {
            self.strength = value;
        } else if index == 1 {
            self.dexterity = value;
        } else if index == 2 {
            self.constitution = value;
        } else if index == 3 {
            self.intelligence = value;
        } else if index == 4 {
            self.wisdom = value;
        } else {
            self.charisma = value;
        }
        proof {
            assert(final(self).scores() =~= old(self).scores().update(index as int, value));
        }
    }
}

/// How base scores are entered.
#[derive(PartialEq, Eq, Structural, Clone, Copy)]
pub enum AbilityMethod {
    StandardArray,
    PointBuy,
    Manual,
}

/// The standard array, assigned in sheet order: 15, 14, 13, 12, 10, 8.
pub fn standard_array_scores() -> (r: AbilityScores)
    ensures
        r.scores() == seq![15u8, 14, 13, 12, 10, 8],
{
    AbilityScores { strength: 15, dexterity: 14, constitution: 13, intelligence: 12, wisdom: 10, charisma: 8 }
}

/// Point buy starts every ability at 8.
pub fn point_buy_start_scores() -> (r: AbilityScores)
    ensures
        r.scores() == seq![8u8, 8, 8, 8, 8, 8],
{
    AbilityScores { strength: 8, dexterity: 8, constitution: 8, intelligence: 8, wisdom: 8, charisma: 8 }
}

/// The first ability (sheet order) whose score is `value`, if any.
pub open spec fn holder_of(scores: Seq<u8>, value: u8) -> Option<int> {
    if exists|o: int| 0 <= o < 6 && scores[o] == value {
        Some(choose|o: int| 0 <= o < 6 && scores[o] == value && forall|p: int| 0 <= p < o ==> scores[p] != value)
    } else {
        None
    }
}

/// Scores after dropping `value` onto ability `index`: the first ability
/// holding `value` takes `index`'s old score, then `index` gets `value`.
pub open spec fn assigned(scores: Seq<u8>, index: int, value: u8) -> Seq<u8> {
    match holder_of(scores, value) {
        Some(o) => scores.update(o, scores[index]).update(index, value),
        None => scores.update(index, value),
    }
}

/// Standard-array assignment: drops the armed `value` onto the ability at
/// `index`, swapping it with whichever ability held that value.
pub fn assign_standard_value(scores: &mut AbilityScores, index: usize, value: u8)
    requires
        index < 6,
    ensures
        final(scores).scores() == assigned(old(scores).scores(), index as int, value),
{
    let ghost s = scores.scores();
    let current = scores.get(index);
    let mut o: usize = 0;
    let mut found: Option<usize> = None;
    while o < 6
        invariant_except_break
            found is None,
        invariant
            o <= 6,
            s == scores.scores(),
            forall|p: int| 0 <= p < o ==> s[p] != value,
        ensures
            found matches Some(f) ==> f < 6 && s[f as int] == value && forall|p: int| 0 <= p < f ==> s[p] != value,
            found is None ==> forall|p: int| 0 <= p < 6 ==> s[p] != value,
        decreases 6 - o,
    {
        if scores.get(o) == value {
            found = Some(o);
            break;
        }
        o = o + 1;
    }
    proof {
        match found {
            Some(f) => {
                assert(holder_of(s, value) == Some(f as int));
            },
            None => {
                assert(holder_of(s, value) is None);
            },
        }
    }
    if let Some(f) = found {
        scores.set(f, current);
    }
    scores.set(index, value);
}

/// Assigning a value some ability already holds only swaps two scores: the
/// six scores stay the same multiset.
pub proof fn lemma_assign_keeps_scores(scores: Seq<u8>, index: int, value: u8)
    requires
        scores.len() == 6,
        0 <= index < 6,
        exists|o: int| 0 <= o < 6 && scores[o] == value,
    ensures
        assigned(scores, index, value).to_multiset() == scores.to_multiset(),
{
    broadcast use vstd::seq_lib::to_multiset_update, vstd::seq_lib::to_multiset_contains, vstd::multiset::group_multiset_axioms;

    let o = holder_of(scores, value)->0;
    let cur = scores[index];
    let s1 = scores.update(o, cur);
    assert(s1.to_multiset() == scores.to_multiset().insert(cur).remove(value));
    assert(s1.update(index, value).to_multiset() == s1.to_multiset().insert(value).remove(s1[index]));
    if o == index {
        assert(s1.update(index, value) =~= scores);
    } else {
        assert(s1[index] == cur);
        let ms = scores.to_multiset();
        assert(scores.contains(value)) by {
            assert(scores[o] == value);
        }
        assert(ms.count(value) > 0);
        let m1 = ms.insert(cur).remove(value);
        let m2 = m1.insert(value).remove(cur);
        assert forall|x: u8| m2.count(x) == ms.count(x) by {
            if x == value && x == cur {
            } else if x == value {
            } else if x == cur {
            } else {
            }
        }
        assert(m2 =~= ms);
    }
}

/// Point buy "-": one lower, never below 8.
pub fn point_buy_decrease(score: u8) -> (r: u8)
    ensures
        r == (if score <= 9 { 8 } else { score - 1 }),
{
    let lowered = if score == 0 { 0 } else { score - 1 };
    if lowered < 8 { 8 } else { lowered }
}

/// Manual entry: the typed score clamped to 3..=20.
pub fn manual_score(value: u8) -> (r: u8)
    ensures
        r == (if value < 3 { 3 } else if value > 20 { 20 } else { value }),
{
    if value < 3 {
        3
    } else if value > 20 {
        20
    } else {
        value
    }
}

// ---------------------------------------------------------------------------
// Custom bonus picks
// ---------------------------------------------------------------------------

/// The two custom bonus picks after choosing `value` in slot `position`: the
/// list is first padded or cut to two entries (padding with `"str"`).
pub open spec fn custom_bonus_after(codes: Seq<String>, position: int, value: String) -> Seq<Seq<char>> {
    let first = if codes.len() > 0 { codes[0]@ } else { "str"@ };
    let second = if codes.len() > 1 { codes[1]@ } else { "str"@ };
    if position == 0 {
        seq![value@, second]
    } else {
        seq![first, value@]
    }
}

/// Sets one of the two custom bonus picks (`position` 0 gains +2, 1 gains +1).
pub fn set_custom_bonus(codes: &mut Vec<String>, position: usize, value: String)
    requires
        position < 2,
    ensures
        final(codes)@.len() == 2,
        final(codes)@.map_values(|c: String| c@) == custom_bonus_after(old(codes)@, position as int, value),
{
    let ghost old_codes = codes@;
    if codes.len() > 2 {
        codes.truncate(2);
    }
    while codes.len() < 2
        invariant
            codes@.len() <= 2,
            old_codes.len() <= codes@.len() || codes@.len() == 2,
            forall|i: int| 0 <= i < codes@.len() ==> (i < old_codes.len() ==> #[trigger] codes@[i] == old_codes[i]),
            forall|i: int| 0 <= i < codes@.len() ==> (i >= old_codes.len() ==> (#[trigger] codes@[i])@ == "str"@),
        decreases 2 - codes@.len(),
    {
        let mut s = String::new();
        push_str(&mut s, "str");
        proof {
            assert(s@ =~= "str"@);
        }
        codes.push(s);
    }
    codes.set(position, value);
    proof {
        assert(codes@.map_values(|c: String| c@) =~= custom_bonus_after(old_codes, position as int, value));
    }
}

/// Where the species/custom bonus comes from, and the picks kept for each.
pub struct BonusPicks {
    pub source: AbilityBonusSource,
    pub species_choices: Vec<String>,
    pub custom_choices: Vec<String>,
}

/// Switching the bonus source: nothing changes when it's already selected;
/// switching to the species clears the custom picks; switching to custom
/// clears the species picks and starts the custom picks at `str`, `dex`.
pub fn switch_bonus_source(picks: &mut BonusPicks, source: AbilityBonusSource)
    ensures
        old(picks).source == source ==> final(picks).source == old(picks).source && final(picks).species_choices
            == old(picks).species_choices && final(picks).custom_choices == old(picks).custom_choices,
        old(picks).source != source ==> final(picks).source == source,
        old(picks).source != source && source == AbilityBonusSource::Species ==> final(picks).species_choices
            == old(picks).species_choices && final(picks).custom_choices@.len() == 0,
        old(picks).source != source && source == AbilityBonusSource::Custom ==> final(picks).species_choices@.len()
            == 0 && final(picks).custom_choices@.map_values(|c: String| c@) == seq!["str"@, "dex"@],
{
    if picks.source == source {
        return;
    }
    picks.source = source;
    match source {
        AbilityBonusSource::Species => {
            picks.custom_choices = Vec::new();
        },
        AbilityBonusSource::Custom => {
            picks.species_choices = Vec::new();
            let mut a = String::new();
            push_str(&mut a, "str");
            let mut b = String::new();
            push_str(&mut b, "dex");
            let mut v: Vec<String> = Vec::new();
            v.push(a);
            v.push(b);
            proof {
                assert(v@.map_values(|c: String| c@) =~= seq!["str"@, "dex"@]);
            }
            picks.custom_choices = v;
        },
    }
}

// ---------------------------------------------------------------------------
// Option availability
// ---------------------------------------------------------------------------

/// `from` lists `code`.
pub open spec fn lists_code(from: Seq<String>, code: Seq<char>) -> bool {
    exists|k: int| 0 <= k < from.len() && #[trigger] from[k]@ == code
}

/// The first `n` ability codes (sheet order) a choose grant offers: every
/// one when it allows any ability, else those it lists.
pub open spec fn candidates_upto(from: Seq<String>, free_choice: bool, n: int) -> Seq<Seq<char>>
    decreases n,
{
    if n <= 0 {
        seq![]
    } else if free_choice || lists_code(from, ability_codes()[n - 1]) {
        candidates_upto(from, free_choice, n - 1).push(ability_codes()[n - 1])
    } else {
        candidates_upto(from, free_choice, n - 1)
    }
}

/// The abilities offered by a species' choose grant, in sheet order.
pub fn bonus_candidates(from: &Vec<String>, free_choice: bool) -> (r: Vec<&'static str>)
    ensures
        r@.map_values(|c: &str| c@) == candidates_upto(from@, free_choice, 6),
{
    let codes = ["str", "dex", "con", "int", "wis", "cha"];
    let mut r: Vec<&'static str> = Vec::new();
    let mut i: usize = 0;
    while i < 6
        invariant
            i <= 6,
            forall|j: int| 0 <= j < 6 ==> (#[trigger] codes@[j])@ == ability_codes()[j],
            r@.map_values(|c: &str| c@) == candidates_upto(from@, free_choice, i as int),
        decreases 6 - i,
    {
        let code = codes[i];
        let listed = pool_contains(from, &String::from_str(code));
        proof {
            assert(code@ == ability_codes()[i as int]);
            if listed {
                let k = choose|k: int| 0 <= k < from@.len() && #[trigger] from@[k]@ == code@;
                assert(lists_code(from@, code@));
            } else {
                assert forall|k: int| 0 <= k < from@.len() implies #[trigger] from@[k]@ != code@ by {}
            }
        }
        let ghost before = r@;
        if free_choice || listed {
            r.push(code);
            proof {
                assert(r@.map_values(|c: &str| c@) =~= before.map_values(|c: &str| c@).push(code@));
            }
        }
        i = i + 1;
    }
    r
}

/// Whether ability `code` is greyed out in custom bonus slot `position`:
/// the other slot already holds it.
pub fn custom_option_disabled(codes: &[String], position: usize, code: &str) -> (r: bool)
    ensures
        r == exists|i: int| 0 <= i < codes@.len() && i != position && #[trigger] codes@[i]@ == code@,
{
    let mut i: usize = 0;
    while i < codes.len()
        invariant
            i <= codes@.len(),
            forall|j: int| 0 <= j < i && j != position ==> #[trigger] codes@[j]@ != code@,
        decreases codes@.len() - i,
    {
        if i != position && codes[i] == String::from_str(code) {
            return true;
        }
        i = i + 1;
    }
    false
}

/// Point buy's "+" is greyed out: the next score has no cost (it is past the
/// table), or paying the difference from the current cost (0 when that has
/// none) would exceed the budget.
pub open spec fn raise_blocked(spent: int, current_cost: Option<u32>, next_cost: Option<u32>, budget: int) -> bool {
    match next_cost {
        None => true,
        Some(n) => spent + (n - match current_cost {
            Some(c) => c as int,
            None => 0int,
        }) > budget,
    }
}

/// Whether point buy's "+" is greyed out for an ability: its next score has
/// no cost (it is past the table), or paying the difference from its current
/// cost (0 when that has none) would exceed the budget.
pub fn point_buy_raise_disabled(spent: u32, current_cost: Option<u32>, next_cost: Option<u32>, budget: u32) -> (r: bool)
    requires
        next_cost matches Some(n) ==> (current_cost matches Some(c) ==> c <= n),
    ensures
        r == raise_blocked(spent as int, current_cost, next_cost, budget as int),
{
    match next_cost {
        None => true,
        Some(n) => {
            let c: u32 = match current_cost {
                Some(c) => c,
                None => 0,
            };
            spent as u64 + (n - c) as u64 > budget as u64
        },
    }
}

/// A point-buy cost table: `costs[s]` is the cost of score `s` (`None` past
/// the table).
pub open spec fn cost_of(costs: Seq<Option<u32>>, s: int) -> Option<u32> {
    if 0 <= s < costs.len() { costs[s] } else { None }
}

/// What a score costs towards the budget (0 when the table has no cost).
pub open spec fn paid(costs: Seq<Option<u32>>, s: int) -> int {
    match cost_of(costs, s) {
        Some(c) => c as int,
        None => 0,
    }
}

/// Points spent on the six scores.
pub open spec fn points_spent(scores: Seq<u8>, costs: Seq<Option<u32>>) -> int {
    paid(costs, scores[0] as int) + paid(costs, scores[1] as int) + paid(costs, scores[2] as int) + paid(
        costs,
        scores[3] as int,
    ) + paid(costs, scores[4] as int) + paid(costs, scores[5] as int)
}

/// Every score is at least 8 and the points spent stay within the budget.
pub open spec fn point_buy_ok(scores: Seq<u8>, costs: Seq<Option<u32>>, budget: int) -> bool {
    &&& scores.len() == 6
    &&& forall|k: int| 0 <= k < 6 ==> #[trigger] scores[k] >= 8
    &&& points_spent(scores, costs) <= budget
}

proof fn lemma_spent_update(scores: Seq<u8>, costs: Seq<Option<u32>>, k: int, v: u8)
    requires
        scores.len() == 6,
        0 <= k < 6,
    ensures
        points_spent(scores.update(k, v), costs) == points_spent(scores, costs) - paid(costs, scores[k] as int) + paid(
            costs,
            v as int,
        ),
{
    let s2 = scores.update(k, v);
    assert(s2[0] == if k == 0 { v } else { scores[0] });
    assert(s2[1] == if k == 1 { v } else { scores[1] });
    assert(s2[2] == if k == 2 { v } else { scores[2] });
    assert(s2[3] == if k == 3 { v } else { scores[3] });
    assert(s2[4] == if k == 4 { v } else { scores[4] });
    assert(s2[5] == if k == 5 { v } else { scores[5] });
}

/// Score `s` is in the cost table.
pub open spec fn in_table(costs: Seq<Option<u32>>, s: int) -> bool {
    cost_of(costs, s) is Some
}

/// A point-buy cost table as the rules have it: it covers 8 and a run of
/// scores without gaps, and within it costs do not fall as scores rise.
pub open spec fn cost_table_ok(costs: Seq<Option<u32>>) -> bool {
    &&& in_table(costs, 8)
    &&& forall|a: int, b: int, c: int|
        a <= b <= c && #[trigger] in_table(costs, a) && #[trigger] in_table(costs, c) ==> #[trigger] in_table(costs, b)
    &&& forall|a: int, b: int|
        a <= b && #[trigger] in_table(costs, a) && #[trigger] in_table(costs, b) ==> paid(costs, a) <= paid(costs, b)
}

/// Every one of the six scores is in the cost table.
pub open spec fn scores_in_table(scores: Seq<u8>, costs: Seq<Option<u32>>) -> bool {
    forall|j: int| 0 <= j < 6 ==> #[trigger] in_table(costs, scores[j] as int)
}

/// Point buy stays within its rules: from scores inside the cost table, all
/// at least 8 and within the budget, a "+" that isn't greyed out and a "-" on
/// a score above 8 both keep every score inside the table, at least 8, and
/// the points spent within the budget.
pub proof fn lemma_point_buy_clicks_keep_budget(
    scores: Seq<u8>,
    costs: Seq<Option<u32>>,
    budget: int,
    k: int,
)
    requires
        cost_table_ok(costs),
        point_buy_ok(scores, costs, budget),
        scores_in_table(scores, costs),
        0 <= k < 6,
        scores[k] < 255,
    ensures
        !raise_blocked(points_spent(scores, costs), cost_of(costs, scores[k] as int), cost_of(
            costs,
            scores[k] + 1,
        ), budget) ==> point_buy_ok(scores.update(k, (scores[k] + 1) as u8), costs, budget) && scores_in_table(
            scores.update(k, (scores[k] + 1) as u8),
            costs,
        ),
        scores[k] > 8 ==> point_buy_ok(scores.update(k, (scores[k] - 1) as u8), costs, budget) && scores_in_table(
            scores.update(k, (scores[k] - 1) as u8),
            costs,
        ),
{
    let up = scores.update(k, (scores[k] + 1) as u8);
    let down = scores.update(k, (scores[k] - 1) as u8);
    lemma_spent_update(scores, costs, k, (scores[k] + 1) as u8);
    assert(in_table(costs, scores[k] as int));
    assert forall|j: int| 0 <= j < 6 implies #[trigger] up[j] >= 8 by {
        assert(scores[j] >= 8);
    }
    assert forall|j: int| 0 <= j < 6 && j != k implies #[trigger] in_table(costs, up[j] as int) by {
        assert(in_table(costs, scores[j] as int));
    }
    if scores[k] > 8 {
        lemma_spent_update(scores, costs, k, (scores[k] - 1) as u8);
        assert(in_table(costs, scores[k] - 1));
        assert(paid(costs, scores[k] - 1) <= paid(costs, scores[k] as int));
        assert forall|j: int| 0 <= j < 6 implies #[trigger] down[j] >= 8 by {
            assert(scores[j] >= 8);
        }
        assert forall|j: int| 0 <= j < 6 implies #[trigger] in_table(costs, down[j] as int) by {
            if j != k {
                assert(in_table(costs, scores[j] as int));
            }
        }
    }
}

/// The scores after choosing an entry method: nothing changes when it is
/// already chosen; otherwise the standard array, all 8s for point buy, or
/// `manual_start` for manual entry.
pub open spec fn scores_for_method(
    current: AbilityMethod,
    method: AbilityMethod,
    scores: AbilityScores,
    manual_start: AbilityScores,
) -> AbilityScores {
    if current == method {
        scores
    } else {
        match method {
            AbilityMethod::StandardArray => AbilityScores {
                strength: 15,
                dexterity: 14,
                constitution: 13,
                intelligence: 12,
                wisdom: 10,
                charisma: 8,
            },
            AbilityMethod::PointBuy => AbilityScores {
                strength: 8,
                dexterity: 8,
                constitution: 8,
                intelligence: 8,
                wisdom: 8,
                charisma: 8,
            },
            AbilityMethod::Manual => manual_start,
        }
    }
}

/// Choosing an entry method: the method becomes `method` and the scores
/// restart as `scores_for_method` says.
pub fn switch_method(
    current: &mut AbilityMethod,
    scores: &mut AbilityScores,
    method: AbilityMethod,
    manual_start: AbilityScores,
)
    ensures
        *final(current) == method,
        *final(scores) == scores_for_method(*old(current), method, *old(scores), manual_start),
{
    if *current == method {
        return;
    }
    *current = method;
    *scores = match method {
        AbilityMethod::StandardArray => standard_array_scores(),
        AbilityMethod::PointBuy => point_buy_start_scores(),
        AbilityMethod::Manual => manual_start,
    };
}

} // verus!
