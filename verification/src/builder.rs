//! The character builder's step navigation and the bookkeeping that keeps
//! saved picks in line with the slots the current build offers.
use vstd::prelude::*;
use crate::matching::{pool_contains, pool_has};

verus! {

// ---------------------------------------------------------------------------
// Step navigation
// ---------------------------------------------------------------------------

/// The step the Next button moves to: the first unlocked step after
/// `current`, or the last step when every later step is locked.
pub fn next_step(current: usize, locked: &[bool]) -> (r: usize)
    requires
        current < locked@.len(),
    ensures
        r < locked@.len(),
        (exists|i: int| current < i < locked@.len() && !#[trigger] locked@[i]) ==> current < r && !locked@[r as int]
            && forall|k: int| current < k < r ==> #[trigger] locked@[k],
        !(exists|i: int| current < i < locked@.len() && !#[trigger] locked@[i]) ==> r == locked@.len() - 1,
{
    let n = locked.len();
    let mut i = current + 1;
    while i < n
        invariant
            current < i <= locked@.len(),
            n == locked@.len(),
            forall|k: int| current < k < i ==> #[trigger] locked@[k],
        decreases locked@.len() - i,
    {
        if !locked[i] {
            return i;
        }
        i = i + 1;
    }
    n - 1
}

/// The step the Back button moves to: the last unlocked step before
/// `current`, or the first step when every earlier step is locked.
pub fn prev_step(current: usize, locked: &[bool]) -> (r: usize)
    requires
        current < locked@.len(),
    ensures
        (exists|i: int| 0 <= i < current && !#[trigger] locked@[i]) ==> r < current && !locked@[r as int] && forall|k: int|
            r < k < current ==> #[trigger] locked@[k],
        !(exists|i: int| 0 <= i < current && !#[trigger] locked@[i]) ==> r == 0,
{
    let mut i = current;
    while i > 0
        invariant
            i <= current < locked@.len(),
            forall|k: int| i <= k < current ==> #[trigger] locked@[k],
        decreases i,
    {
        if !locked[i - 1] {
            return i - 1;
        }
        i = i - 1;
    }
    0
}

/// Going Next and then Back from an unlocked step returns to it, as long as
/// some later step is unlocked.
pub proof fn lemma_next_then_back(current: usize, locked: Seq<bool>, next: usize, back: usize)
    requires
        current < locked.len(),
        !locked[current as int],
        exists|i: int| current < i < locked.len() && !#[trigger] locked[i],
        current < next && !locked[next as int] && forall|k: int| current < k < next ==> #[trigger] locked[k],
        back < next && !locked[back as int] && forall|k: int| back < k < next ==> #[trigger] locked[k],
    ensures
        back == current,
{
    if back < current {
        assert(locked[current as int]);
    } else if back > current {
        assert(locked[back as int]);
    }
}

/// Facts about the current build that lock steps with nothing to pick.
pub struct LockFacts {
    pub no_optional_features: bool,
    pub no_skill_choices: bool,
    pub no_expertise: bool,
    pub no_language_choices: bool,
    pub no_tool_choices: bool,
    pub no_spellcasting: bool,
    pub no_asi: bool,
}

/// Why step `index` is locked, if it is: optional features (2) with no
/// optional feature types active, skills (5) with neither skill nor expertise
/// picks, languages (6) and tools (7) with no choice slots, spells (9) with no
/// caster class, feats & ASIs (10) with none unlocked.
pub fn step_lock_reason(index: usize, facts: &LockFacts) -> (r: Option<&'static str>)
    ensures
        r is Some <==> (index == 2 && facts.no_optional_features) || (index == 5 && facts.no_skill_choices
            && facts.no_expertise) || (index == 6 && facts.no_language_choices) || (index == 7 && facts.no_tool_choices)
            || (index == 9 && facts.no_spellcasting) || (index == 10 && facts.no_asi),
        index == 2 && facts.no_optional_features ==> r == Some(
            "No optional features to choose for this class/subclass yet.",
        ),
        index == 5 && facts.no_skill_choices && facts.no_expertise ==> r == Some(
            "No skill or expertise choices to make yet \u{2014} pick a class and background first.",
        ),
        index == 6 && facts.no_language_choices ==> r == Some(
            "No language choices to make yet \u{2014} pick a background and species first.",
        ),
        index == 7 && facts.no_tool_choices ==> r == Some(
            "No tool choices to make yet \u{2014} pick a class and background first.",
        ),
        index == 9 && facts.no_spellcasting ==> r == Some("This build doesn't grant spellcasting."),
        index == 10 && facts.no_asi ==> r == Some("No Ability Score Improvements unlocked yet."),
{
    if index == 2 {
        if facts.no_optional_features {
            Some("No optional features to choose for this class/subclass yet.")
        } else {
            None
        }
    } else if index == 5 {
        if facts.no_skill_choices && facts.no_expertise {
            Some("No skill or expertise choices to make yet \u{2014} pick a class and background first.")
        } else {
            None
        }
    } else if index == 6 {
        if facts.no_language_choices {
            Some("No language choices to make yet \u{2014} pick a background and species first.")
        } else {
            None
        }
    } else if index == 7 {
        if facts.no_tool_choices {
            Some("No tool choices to make yet \u{2014} pick a class and background first.")
        } else {
            None
        }
    } else if index == 9 {
        if facts.no_spellcasting {
            Some("This build doesn't grant spellcasting.")
        } else {
            None
        }
    } else if index == 10 {
        if facts.no_asi {
            Some("No Ability Score Improvements unlocked yet.")
        } else {
            None
        }
    } else {
        None
    }
}

/// Step `index` is locked by `facts` (see `step_lock_reason`).
pub open spec fn step_locked(index: int, facts: LockFacts) -> bool {
    (index == 2 && facts.no_optional_features) || (index == 5 && facts.no_skill_choices && facts.no_expertise) || (
    index == 6 && facts.no_language_choices) || (index == 7 && facts.no_tool_choices) || (index == 9
        && facts.no_spellcasting) || (index == 10 && facts.no_asi)
}

/// Whether each of the `steps` tabs is locked.
pub fn step_locks(steps: usize, facts: &LockFacts) -> (r: Vec<bool>)
    ensures
        r@.len() == steps,
        forall|i: int| 0 <= i < steps ==> #[trigger] r@[i] == step_locked(i, *facts),
{
    let mut r: Vec<bool> = Vec::new();
    let mut i: usize = 0;
    while i < steps
        invariant
            i <= steps,
            r@.len() == i,
            forall|j: int| 0 <= j < i ==> #[trigger] r@[j] == step_locked(j, *facts),
        decreases steps - i,
    {
        r.push(step_lock_reason(i, facts).is_some());
        i = i + 1;
    }
    r
}

/// The step shown after clicking tab `index`: a locked tab ignores the click.
pub fn tab_click(current: usize, index: usize, locked: &[bool]) -> (r: usize)
    requires
        index < locked@.len(),
    ensures
        r == (if locked@[index as int] { current } else { index }),
{
    if locked[index] {
        current
    } else {
        index
    }
}

/// With the first and last steps never locked (as `step_locked` has it),
/// Next, Back and tab clicks from an unlocked step always land on an unlocked
/// step (`next`, `back`, `clicked` as `next_step`, `prev_step` and
/// `tab_click` return them).
pub proof fn lemma_moves_land_unlocked(
    current: usize,
    locked: Seq<bool>,
    next: usize,
    back: usize,
    index: usize,
    clicked: usize,
)
    requires
        current < locked.len(),
        !locked[current as int],
        !locked[0],
        !locked[locked.len() - 1],
        next < locked.len(),
        (exists|i: int| current < i < locked.len() && !#[trigger] locked[i]) ==> current < next && !locked[next as int],
        !(exists|i: int| current < i < locked.len() && !#[trigger] locked[i]) ==> next == locked.len() - 1,
        (exists|i: int| 0 <= i < current && !#[trigger] locked[i]) ==> back < current && !locked[back as int],
        !(exists|i: int| 0 <= i < current && !#[trigger] locked[i]) ==> back == 0,
        index < locked.len(),
        clicked == (if locked[index as int] { current } else { index }),
    ensures
        !locked[next as int],
        !locked[back as int],
        !locked[clicked as int],
{
}

/// The first and last of the twelve steps are never locked.
pub proof fn lemma_ends_never_locked(facts: LockFacts)
    ensures
        !step_locked(0, facts),
        !step_locked(11, facts),
{
}

/// The Save button: disabled while the character is invalid, a save is under
/// way, or some step is incomplete; its text shows a save under way.
pub fn save_button(valid: bool, saving: bool, incomplete: usize) -> (r: (bool, &'static str))
    ensures
        r.0 == (!valid || saving || incomplete > 0),
        r.1@ == (if saving { "Saving..."@ } else { "Save Character"@ }),
{
    (!valid || saving || incomplete > 0, if saving { "Saving..." } else { "Save Character" })
}

/// The steps before the final review step that are unlocked but not complete, in order.
pub fn incomplete_steps(locked: &[bool], complete: &[bool]) -> (r: Vec<usize>)
    requires
        locked@.len() == complete@.len(),
        locked@.len() >= 1,
    ensures
        forall|j: int| 0 <= j < r@.len() ==> #[trigger] r@[j] < locked@.len() - 1 && !locked@[r@[j] as int]
            && !complete@[r@[j] as int],
        forall|j: int, k: int| 0 <= j < k < r@.len() ==> #[trigger] r@[j] < #[trigger] r@[k],
        forall|i: int| 0 <= i < locked@.len() - 1 && !locked@[i] && !complete@[i] ==> #[trigger] r@.contains(i as usize),
{
    let mut r: Vec<usize> = Vec::new();
    let last = locked.len() - 1;
    let mut i: usize = 0;
    while i < last
        invariant
            i <= last,
            last == locked@.len() - 1,
            locked@.len() == complete@.len(),
            forall|j: int| 0 <= j < r@.len() ==> #[trigger] r@[j] < i && !locked@[r@[j] as int] && !complete@[r@[j] as int],
            forall|j: int, k: int| 0 <= j < k < r@.len() ==> #[trigger] r@[j] < #[trigger] r@[k],
            forall|x: int| 0 <= x < i && !locked@[x] && !complete@[x] ==> #[trigger] r@.contains(x as usize),
        decreases last - i,
    {
        if !locked[i] && !complete[i] {
            let ghost before = r@;
            r.push(i);
            proof {
                assert forall|x: int| 0 <= x < i + 1 && !locked@[x] && !complete@[x] implies #[trigger] r@.contains(
                    x as usize,
                ) by {
                    if x < i {
                        assert(before.contains(x as usize));
                        let j = choose|j: int| 0 <= j < before.len() && before[j] == x as usize;
                        assert(r@[j] == x as usize);
                    } else {
                        assert(r@[r@.len() - 1] == i);
                    }
                }
            }
        }
        i = i + 1;
    }
    r
}

// ---------------------------------------------------------------------------
// HP roll slots
// ---------------------------------------------------------------------------

/// One added class and its level in that class.
pub struct ClassLevel {
    pub class_id: String,
    pub subclass_id: Option<String>,
    pub level: u8,
}

/// First rolled level of the class at `index` (the primary class's first
/// level is never rolled).
pub open spec fn first_rolled_level(index: int) -> int {
    if index == 0 { 2 } else { 1 }
}

/// Keys `(class id, class level)` of every rolled level, class by class.
pub open spec fn hp_keys_spec(classes: Seq<ClassLevel>) -> Seq<(Seq<char>, u8)>
    decreases classes.len(),
{
    if classes.len() == 0 {
        seq![]
    } else {
        let idx = classes.len() - 1;
        let c = classes[idx];
        let start = first_rolled_level(idx);
        let n = if c.level >= start { c.level - start + 1 } else { 0 };
        hp_keys_spec(classes.drop_last()) + Seq::new(n as nat, |k: int| (c.class_id@, (start + k) as u8))
    }
}

/// Contents of a list of keys.
pub open spec fn key_views(keys: Seq<(String, u8)>) -> Seq<(Seq<char>, u8)> {
    keys.map_values(|k: (String, u8)| (k.0@, k.1))
}

/// The `(class id, class level)` key of every rolled HP slot, in slot order.
pub fn hp_roll_keys(classes: &[ClassLevel]) -> (r: Vec<(String, u8)>)
    ensures
        key_views(r@) == hp_keys_spec(classes@),
{
    let mut r: Vec<(String, u8)> = Vec::new();
    let mut i: usize = 0;
    while i < classes.len()
        invariant
            i <= classes@.len(),
            key_views(r@) == hp_keys_spec(classes@.take(i as int)),
        decreases classes@.len() - i,
    {
        let c = &classes[i];
        let start: u8 = if i == 0 { 2 } else { 1 };
        let ghost before = r@;
        let ghost n: int = if c.level >= start { c.level - start + 1 } else { 0 };
        if c.level >= start {
            let mut l: u16 = start as u16;
            while l <= c.level as u16
                invariant
                    start <= l,
                    l <= c.level + 1,
                    n == c.level - start + 1,
                    key_views(r@) == key_views(before) + Seq::new((l - start) as nat, |k: int| (c.class_id@, (start + k) as u8)),
                decreases c.level + 1 - l,
            {
                let ghost prev = r@;
                r.push((c.class_id.clone(), l as u8));
                proof {
                    assert(key_views(r@) =~= key_views(prev).push((c.class_id@, l as u8)));
                    assert(key_views(r@) =~= key_views(before) + Seq::new((l + 1 - start) as nat, |k: int| (c.class_id@, (start + k) as u8)));
                }
                l = l + 1;
            }
            proof {
                assert(key_views(r@) =~= key_views(before) + Seq::new(n as nat, |k: int| (c.class_id@, (start + k) as u8)));
            }
        }
        proof {
            assert(classes@.take(i + 1).drop_last() =~= classes@.take(i as int));
            assert(classes@.take(i + 1)[i as int] == *c);
            assert(key_views(r@) =~= hp_keys_spec(classes@.take(i + 1)));
        }
        i = i + 1;
    }
    proof {
        assert(classes@.take(classes@.len() as int) =~= classes@);
    }
    r
}

/// The last position below `limit` where `keys` holds `key`.
pub open spec fn last_key_at(keys: Seq<(Seq<char>, u8)>, limit: int, key: (Seq<char>, u8)) -> Option<int> {
    if exists|m: int| 0 <= m < limit && keys[m] == key {
        Some(choose|m: int| 0 <= m < limit && keys[m] == key && forall|m2: int| m < m2 < limit ==> keys[m2] != key)
    } else {
        None
    }
}

/// What `last_key_at` finds.
proof fn lemma_last_key_at(keys: Seq<(Seq<char>, u8)>, limit: int, key: (Seq<char>, u8))
    ensures
        match last_key_at(keys, limit, key) {
            Some(m) => 0 <= m < limit && keys[m] == key && forall|m2: int| m < m2 < limit ==> keys[m2] != key,
            None => forall|m: int| 0 <= m < limit ==> keys[m] != key,
        },
{
    if exists|m: int| 0 <= m < limit && keys[m] == key {
        let m0 = choose|m: int| 0 <= m < limit && keys[m] == key;
        lemma_last_exists(keys, limit, key, m0);
    }
}

proof fn lemma_last_exists(keys: Seq<(Seq<char>, u8)>, limit: int, key: (Seq<char>, u8), m0: int)
    requires
        0 <= m0 < limit,
        keys[m0] == key,
    ensures
        exists|m: int| 0 <= m < limit && keys[m] == key && forall|m2: int| m < m2 < limit ==> keys[m2] != key,
    decreases limit - m0,
{
    if exists|m2: int| m0 < m2 < limit && keys[m2] == key {
        let m1 = choose|m2: int| m0 < m2 < limit && keys[m2] == key;
        lemma_last_exists(keys, limit, key, m1);
    } else {
        assert(forall|m2: int| m0 < m2 < limit ==> keys[m2] != key);
    }
}

fn same_key(a: &(String, u8), b: &(String, u8)) -> (r: bool)
    ensures
        r == ((a.0@, a.1) == (b.0@, b.1)),
{
    a.1 == b.1 && a.0 == b.0
}

/// Finds the last position below `limit` holding `key`.
fn find_last_key(keys: &[(String, u8)], limit: usize, key: &(String, u8)) -> (r: Option<usize>)
    requires
        limit <= keys@.len(),
    ensures
        match r {
            Some(m) => m < limit && key_views(keys@)[m as int] == (key.0@, key.1) && forall|m2: int|
                m < m2 < limit ==> key_views(keys@)[m2] != (key.0@, key.1),
            None => forall|m: int| 0 <= m < limit ==> key_views(keys@)[m] != (key.0@, key.1),
        },
{
    let mut m = limit;
    while m > 0
        invariant
            m <= limit <= keys@.len(),
            forall|m2: int| m <= m2 < limit ==> key_views(keys@)[m2] != (key.0@, key.1),
        decreases m,
    {
        if same_key(&keys[m - 1], key) {
            return Some(m - 1);
        }
        m = m - 1;
    }
    None
}

/// The roll kept for one new slot: the roll stored under the same key in
/// the old layout (the later one if the key repeats), or 0 when it had none.
pub open spec fn kept_roll(old_keys: Seq<(Seq<char>, u8)>, rolls: Seq<u8>, key: (Seq<char>, u8)) -> u8 {
    let limit = if old_keys.len() < rolls.len() { old_keys.len() } else { rolls.len() };
    match last_key_at(old_keys, limit as int, key) {
        Some(m) => rolls[m],
        None => 0,
    }
}

/// Carries HP rolls over to a new slot layout by `(class id, class level)`,
/// so a roll for a class's own level survives classes being reordered,
/// added or removed; slots without an old roll get 0.
pub fn reconcile_hp_rolls(old_keys: &[(String, u8)], rolls: &[u8], new_keys: &[(String, u8)]) -> (r: Vec<u8>)
    ensures
        r@.len() == new_keys@.len(),
        forall|j: int| 0 <= j < new_keys@.len() ==> #[trigger] r@[j] == kept_roll(
            key_views(old_keys@),
            rolls@,
            key_views(new_keys@)[j],
        ),
{
    let limit = if old_keys.len() < rolls.len() { old_keys.len() } else { rolls.len() };
    let mut r: Vec<u8> = Vec::new();
    let mut j: usize = 0;
    while j < new_keys.len()
        invariant
            j <= new_keys@.len(),
            limit as int == (if old_keys@.len() < rolls@.len() { old_keys@.len() } else { rolls@.len() }),
            r@.len() == j,
            forall|t: int| 0 <= t < j ==> #[trigger] r@[t] == kept_roll(key_views(old_keys@), rolls@, key_views(new_keys@)[t]),
        decreases new_keys@.len() - j,
    {
        let ghost key = key_views(new_keys@)[j as int];
        let found = find_last_key(old_keys, limit, &new_keys[j]);
        let v = match found {
            Some(m) => rolls[m],
            None => 0,
        };
        proof {
            let ok = key_views(old_keys@);
            assert(key == (new_keys@[j as int].0@, new_keys@[j as int].1));
            match found {
                Some(m) => {
                    assert(last_key_at(ok, limit as int, key) == Some(m as int));
                },
                None => {
                    assert(last_key_at(ok, limit as int, key) is None);
                },
            }
        }
        r.push(v);
        j = j + 1;
    }
    r
}

/// Reconciling against an unchanged layout with one roll per slot keeps
/// every roll, provided no key repeats.
pub proof fn lemma_reconcile_same_layout(keys: Seq<(Seq<char>, u8)>, rolls: Seq<u8>, j: int)
    requires
        keys.len() == rolls.len(),
        0 <= j < keys.len(),
        forall|a: int, b: int| 0 <= a < b < keys.len() ==> #[trigger] keys[a] != #[trigger] keys[b],
    ensures
        kept_roll(keys, rolls, keys[j]) == rolls[j],
{
    assert(keys[j] == keys[j]);
    let m = choose|m: int| 0 <= m < keys.len() && keys[m] == keys[j] && forall|m2: int| m < m2 < keys.len() ==> keys[m2] != keys[j];
    if m < j {
        assert(keys[m] != keys[j]);
    } else if m > j {
        assert(keys[j] != keys[m]);
    }
}

// ---------------------------------------------------------------------------
// Per-slot picks
// ---------------------------------------------------------------------------

/// The pick kept in slot `i`: the old pick if there was one, it is still an
/// option of the slot's (possibly recomputed) pool, and no fixed grant
/// already covers it; else none.
pub open spec fn kept_pick(old: Seq<Option<String>>, pools: Seq<Vec<String>>, fixed: Seq<String>, i: int) -> Option<String> {
    if i < old.len() {
        match old[i] {
            Some(c) => if pool_has(pools[i]@, c) && !pool_has(fixed, c) { Some(c) } else { None },
            None => None,
        }
    } else {
        None
    }
}

/// Resizes per-slot picks to the current slots and clears any pick that is
/// no longer in its slot's pool or that a fixed grant now makes redundant.
pub fn reconcile_pool_choices(choices: Vec<Option<String>>, pools: &[Vec<String>], fixed: &[String]) -> (r: Vec<
    Option<String>,
>)
    ensures
        r@.len() == pools@.len(),
        forall|i: int| 0 <= i < pools@.len() ==> #[trigger] r@[i] == kept_pick(choices@, pools@, fixed@, i),
{
    let ghost old = choices@;
    let mut choices = choices;
    let mut r: Vec<Option<String>> = Vec::new();
    let mut i: usize = 0;
    while i < pools.len()
        invariant
            i <= pools@.len(),
            r@.len() == i,
            choices@.len() == old.len(),
            forall|k: int| i <= k < old.len() ==> #[trigger] choices@[k] == old[k],
            forall|t: int| 0 <= t < i ==> #[trigger] r@[t] == kept_pick(old, pools@, fixed@, t),
        decreases pools@.len() - i,
    {
        let mut v: Option<String> = None;
        if i < choices.len() {
            v = choices[i].take();
        }
        let keep = match &v {
            Some(c) => pool_contains(&pools[i], c) && !pool_contains_slice(fixed, c),
            None => false,
        };
        if keep {
            r.push(v);
        } else {
            r.push(None);
        }
        i = i + 1;
    }
    r
}

fn pool_contains_slice(list: &[String], s: &String) -> (r: bool)
    ensures
        r == pool_has(list@, *s),
{
    let mut j: usize = 0;
    while j < list.len()
        invariant
            j <= list@.len(),
            forall|k: int| 0 <= k < j ==> list@[k]@ != s@,
        decreases list@.len() - j,
    {
        if list[j] == *s {
            assert(list@[j as int]@ == s@);
            return true;
        }
        j = j + 1;
    }
    false
}

/// Reconciling twice changes nothing more.
pub proof fn lemma_reconcile_idempotent(
    old: Seq<Option<String>>,
    pools: Seq<Vec<String>>,
    fixed: Seq<String>,
    once: Seq<Option<String>>,
    i: int,
)
    requires
        once.len() == pools.len(),
        forall|t: int| 0 <= t < pools.len() ==> #[trigger] once[t] == kept_pick(old, pools, fixed, t),
        0 <= i < pools.len(),
    ensures
        kept_pick(once, pools, fixed, i) == once[i],
{
}

/// Every pick kept is an option of its slot and not a fixed grant.
pub proof fn lemma_kept_picks_are_valid(old: Seq<Option<String>>, pools: Seq<Vec<String>>, fixed: Seq<String>, i: int)
    requires
        0 <= i < pools.len(),
    ensures
        kept_pick(old, pools, fixed, i) matches Some(c) ==> pool_has(pools[i]@, c) && !pool_has(fixed, c),
{
}

/// The expertise pick kept in slot `i`: the old pick if it still names a
/// skill the character is proficient in.
pub open spec fn kept_expertise(old: Seq<Option<String>>, proficient: Seq<String>, i: int) -> Option<String> {
    if i < old.len() {
        match old[i] {
            Some(c) => if pool_has(proficient, c) { Some(c) } else { None },
            None => None,
        }
    } else {
        None
    }
}

/// Resizes expertise picks to `count` slots and clears picks naming a skill
/// the character is no longer proficient in.
pub fn reconcile_expertise(choices: Vec<Option<String>>, count: usize, proficient: &[String]) -> (r: Vec<Option<String>>)
    ensures
        r@.len() == count,
        forall|i: int| 0 <= i < count ==> #[trigger] r@[i] == kept_expertise(choices@, proficient@, i),
{
    let ghost old = choices@;
    let mut choices = choices;
    let mut r: Vec<Option<String>> = Vec::new();
    let mut i: usize = 0;
    while i < count
        invariant
            i <= count,
            r@.len() == i,
            choices@.len() == old.len(),
            forall|k: int| i <= k < old.len() ==> #[trigger] choices@[k] == old[k],
            forall|t: int| 0 <= t < i ==> #[trigger] r@[t] == kept_expertise(old, proficient@, t),
        decreases count - i,
    {
        let mut v: Option<String> = None;
        if i < choices.len() {
            v = choices[i].take();
        }
        let keep = match &v {
            Some(c) => pool_contains_slice(proficient, c),
            None => false,
        };
        if keep {
            r.push(v);
        } else {
            r.push(None);
        }
        i = i + 1;
    }
    r
}

/// `choices` without the members `allowed` doesn't list, order kept.
pub open spec fn retained(choices: Seq<String>, allowed: Seq<String>) -> Seq<String>
    decreases choices.len(),
{
    if choices.len() == 0 {
        seq![]
    } else if pool_has(allowed, choices.last()) {
        retained(choices.drop_last(), allowed).push(choices.last())
    } else {
        retained(choices.drop_last(), allowed)
    }
}

/// Drops picks that fell out of the pool (cantrips, spells, optional
/// features), keeping the rest in order.
pub fn retain_in(choices: Vec<String>, allowed: &[String]) -> (r: Vec<String>)
    ensures
        r@ == retained(choices@, allowed@),
{
    let ghost all = choices@;
    let total = choices.len();
    let mut r: Vec<String> = Vec::new();
    let mut i: usize = 0;
    for c in it: choices.into_iter()
        invariant
            all == it.seq(),
            i == it.index(),
            i <= all.len(),
            total == all.len(),
            r@ == retained(all.take(i as int), allowed@),
    {
        proof {
            assert(c == all[i as int]);
            assert(all.take(i + 1).drop_last() =~= all.take(i as int));
            assert(all.take(i + 1).last() == c);
        }
        if pool_contains_slice(allowed, &c) {
            r.push(c);
        }
        i = i + 1;
    }
    proof {
        assert(all.take(all.len() as int) =~= all);
    }
    r
}

/// Species ability picks kept after a species change: those the grant
/// allows (every pick when it allows any ability), at most `count` of them.
pub open spec fn kept_species_picks(choices: Seq<String>, count: u8, from: Seq<String>, free_choice: bool) -> Seq<String> {
    let allowed = if free_choice { choices } else { retained(choices, from) };
    if allowed.len() <= count { allowed } else { allowed.take(count as int) }
}

/// Drops species ability picks the current species' grant no longer allows
/// and truncates to its count (a species without a choose grant has count 0).
pub fn reconcile_species_choices(choices: Vec<String>, count: u8, from: &[String], free_choice: bool) -> (r: Vec<String>)
    ensures
        r@ == kept_species_picks(choices@, count, from@, free_choice),
{
    let mut allowed = if free_choice { choices } else { retain_in(choices, from) };
    if allowed.len() > count as usize {
        allowed.truncate(count as usize);
    }
    allowed
}

// ---------------------------------------------------------------------------
// ASI slots
// ---------------------------------------------------------------------------

/// The pick carried to new slot `j`: none if an earlier new slot has the
/// same key (the stored pick was already taken); else the old pick stored
/// under that key (the later one if the old key repeats), or none.
pub open spec fn carried_pick<T>(
    old_keys: Seq<(Seq<char>, u8)>,
    old: Seq<Option<T>>,
    new_keys: Seq<(Seq<char>, u8)>,
    j: int,
) -> Option<T> {
    if exists|t: int| 0 <= t < j && new_keys[t] == new_keys[j] {
        None
    } else {
        let limit = if old_keys.len() < old.len() { old_keys.len() } else { old.len() };
        match last_key_at(old_keys, limit as int, new_keys[j]) {
            Some(m) => old[m],
            None => None,
        }
    }
}

fn repeats_key(keys: &[(String, u8)], j: usize) -> (r: bool)
    requires
        j < keys@.len(),
    ensures
        r == exists|t: int| 0 <= t < j && key_views(keys@)[t] == key_views(keys@)[j as int],
{
    let mut t: usize = 0;
    while t < j
        invariant
            t <= j < keys@.len(),
            forall|u: int| 0 <= u < t ==> key_views(keys@)[u] != key_views(keys@)[j as int],
        decreases j - t,
    {
        if same_key(&keys[t], &keys[j]) {
            assert(key_views(keys@)[t as int] == key_views(keys@)[j as int]);
            return true;
        }
        t = t + 1;
    }
    false
}

/// Carries per-slot ASI/feat picks over to a new slot layout by
/// `(class id, ASI level)`, so picks stay with the class level that granted
/// them when classes are reordered, added or removed.
pub fn reconcile_keyed_choices<T>(old_keys: &[(String, u8)], old: Vec<Option<T>>, new_keys: &[(String, u8)]) -> (r: Vec<
    Option<T>,
>)
    ensures
        r@.len() == new_keys@.len(),
        forall|j: int| 0 <= j < new_keys@.len() ==> #[trigger] r@[j] == carried_pick(
            key_views(old_keys@),
            old@,
            key_views(new_keys@),
            j,
        ),
{
    let ghost orig = old@;
    let ghost ok = key_views(old_keys@);
    let ghost nk = key_views(new_keys@);
    let limit = if old_keys.len() < old.len() { old_keys.len() } else { old.len() };
    let mut old = old;
    let mut r: Vec<Option<T>> = Vec::new();
    let mut j: usize = 0;
    while j < new_keys.len()
        invariant
            j <= new_keys@.len(),
            ok == key_views(old_keys@),
            nk == key_views(new_keys@),
            limit as int == (if old_keys@.len() < orig.len() { old_keys@.len() } else { orig.len() }),
            old@.len() == orig.len(),
            r@.len() == j,
            forall|t: int| 0 <= t < j ==> #[trigger] r@[t] == carried_pick(ok, orig, nk, t),
            // a stored pick is only taken by the first new slot with its key
            forall|m: int|
                0 <= m < orig.len() && #[trigger] old@[m] != orig[m] ==> exists|t: int| 0 <= t < j && m < limit && last_key_at(
                    ok,
                    limit as int,
                    nk[t],
                ) == Some(m),
        decreases new_keys@.len() - j,
    {
        let v: Option<T>;
        if repeats_key(new_keys, j) {
            v = None;
        } else {
            let found = find_last_key(old_keys, limit, &new_keys[j]);
            proof {
                assert(nk[j as int] == (new_keys@[j as int].0@, new_keys@[j as int].1));
            }
            match found {
                Some(m) => {
                    proof {
                        assert(last_key_at(ok, limit as int, nk[j as int]) == Some(m as int));
                        if old@[m as int] != orig[m as int] {
                            let t = choose|t: int| 0 <= t < j && m < limit && last_key_at(ok, limit as int, nk[t]) == Some(m as int);
                            // the same last position means the same key
                            lemma_last_key_at(ok, limit as int, nk[t]);
                            lemma_last_key_at(ok, limit as int, nk[j as int]);
                            assert(ok[m as int] == nk[t]);
                            assert(ok[m as int] == nk[j as int]);
                            assert(false);
                        }
                    }
                    v = old[m].take();
                },
                None => {
                    proof {
                        assert(last_key_at(ok, limit as int, nk[j as int]) is None);
                    }
                    v = None;
                },
            }
        }
        r.push(v);
        j = j + 1;
    }
    r
}

/// Reconciling per-slot picks against an unchanged layout with one pick per
/// slot keeps every pick, provided no key repeats.
pub proof fn lemma_keyed_same_layout<T>(keys: Seq<(Seq<char>, u8)>, old: Seq<Option<T>>, j: int)
    requires
        keys.len() == old.len(),
        0 <= j < keys.len(),
        forall|a: int, b: int| 0 <= a < b < keys.len() ==> #[trigger] keys[a] != #[trigger] keys[b],
    ensures
        carried_pick(keys, old, keys, j) == old[j],
{
    assert(!exists|t: int| 0 <= t < j && keys[t] == keys[j]) by {
        assert forall|t: int| 0 <= t < j implies keys[t] != keys[j] by {
            assert(keys[t] != keys[j]);
        }
    }
    assert(keys[j] == keys[j]);
    let m = choose|m: int| 0 <= m < keys.len() && keys[m] == keys[j] && forall|m2: int| m < m2 < keys.len() ==> keys[m2] != keys[j];
    if m < j {
        assert(keys[m] != keys[j]);
    } else if m > j {
        assert(keys[j] != keys[m]);
    }
}

/// A key repeated in the new layout gets its pick once: every later slot
/// with the same key gets none.
pub proof fn lemma_keyed_repeat_gets_none<T>(
    old_keys: Seq<(Seq<char>, u8)>,
    old: Seq<Option<T>>,
    new_keys: Seq<(Seq<char>, u8)>,
    t: int,
    j: int,
)
    requires
        0 <= t < j < new_keys.len(),
        new_keys[t] == new_keys[j],
    ensures
        carried_pick(old_keys, old, new_keys, j) is None,
{
}

} // verus!
