//! Picking spells, cantrips and other chips in the builder: toggling with a
//! quota, over-quota warnings, per-class tabs and step completeness.
use vstd::prelude::*;
use crate::matching::pool_has;
use crate::text::{decimal, push_decimal, push_str, views};

verus! {

/// Index of the first pick equal to `id`, if any.
pub open spec fn first_index(choices: Seq<String>, id: Seq<char>) -> Option<int> {
    if exists|k: int| 0 <= k < choices.len() && #[trigger] choices[k]@ == id {
        Some(choose|k: int| 0 <= k < choices.len() && choices[k]@ == id && forall|j: int| 0 <= j < k ==> #[trigger] choices[j]@ != id)
    } else {
        None
    }
}

/// What `first_index` finds.
pub proof fn lemma_first_index(choices: Seq<String>, id: Seq<char>)
    ensures
        match first_index(choices, id) {
            Some(k) => 0 <= k < choices.len() && choices[k]@ == id && forall|j: int| 0 <= j < k ==> #[trigger] choices[j]@ != id,
            None => forall|j: int| 0 <= j < choices.len() ==> #[trigger] choices[j]@ != id,
        },
{
    if exists|k: int| 0 <= k < choices.len() && #[trigger] choices[k]@ == id {
        let k0 = choose|k: int| 0 <= k < choices.len() && #[trigger] choices[k]@ == id;
        lemma_first_exists(choices, id, k0);
    }
}

proof fn lemma_first_exists(choices: Seq<String>, id: Seq<char>, k0: int)
    requires
        0 <= k0 < choices.len(),
        choices[k0]@ == id,
    ensures
        exists|k: int| 0 <= k < choices.len() && choices[k]@ == id && forall|j: int| 0 <= j < k ==> #[trigger] choices[j]@ != id,
    decreases k0,
{
    if exists|j: int| 0 <= j < k0 && #[trigger] choices[j]@ == id {
        let j = choose|j: int| 0 <= j < k0 && #[trigger] choices[j]@ == id;
        lemma_first_exists(choices, id, j);
    } else {
        assert(forall|j: int| 0 <= j < k0 ==> #[trigger] choices[j]@ != id);
    }
}

pub(crate) fn find_pick(choices: &Vec<String>, id: &String) -> (r: Option<usize>)
    ensures
        match r {
            Some(k) => k < choices@.len() && first_index(choices@, id@) == Some(k as int),
            None => first_index(choices@, id@) is None,
        },
{
    let mut k: usize = 0;
    while k < choices.len()
        invariant
            k <= choices@.len(),
            forall|j: int| 0 <= j < k ==> (#[trigger] choices@[j])@ != id@,
        decreases choices@.len() - k,
    {
        if choices[k] == *id {
            proof {
                let c = choose|c: int| 0 <= c < choices@.len() && choices@[c]@ == id@ && forall|j: int| 0 <= j < c ==> #[trigger] choices@[j]@ != id@;
                if c < k {
                    assert(choices@[c]@ != id@);
                } else if c > k {
                    assert(choices@[k as int]@ != id@);
                }
            }
            return Some(k);
        }
        k = k + 1;
    }
    None
}

/// Clicking a pick chip: an already-picked id is removed (its first
/// occurrence); an unpicked one is added at the end while fewer than `quota`
/// are picked; otherwise (the chip is disabled) nothing changes.
pub fn toggle_pick(choices: &mut Vec<String>, id: &String, quota: usize)
    ensures
        match first_index(old(choices)@, id@) {
            Some(k) => final(choices)@ == old(choices)@.remove(k),
            None => if old(choices)@.len() < quota {
                final(choices)@.len() == old(choices)@.len() + 1 && final(choices)@.drop_last() == old(choices)@
                    && final(choices)@.last()@ == id@
            } else {
                final(choices)@ == old(choices)@
            },
        },
{
    match find_pick(choices, id) {
        Some(k) => {
            choices.remove(k);
        },
        None => {
            if choices.len() < quota {
                choices.push(id.clone());
                proof {
                    assert(final(choices)@.drop_last() =~= old(choices)@);
                }
            }
        },
    }
}

/// Toggling never takes a pick list that was within its quota over it.
pub proof fn lemma_toggle_within_quota(old: Seq<String>, new: Seq<String>, id: Seq<char>, quota: usize)
    requires
        old.len() <= quota,
        match first_index(old, id) {
            Some(k) => new == old.remove(k),
            None => if old.len() < quota {
                new.len() == old.len() + 1 && new.drop_last() == old && new.last()@ == id
            } else {
                new == old
            },
        },
    ensures
        new.len() <= quota,
{
    lemma_first_index(old, id);
}

/// Picking an unpicked id and then clicking it again restores the list.
pub proof fn lemma_toggle_twice(old: Seq<String>, mid: Seq<String>, new: Seq<String>, id: Seq<char>)
    requires
        first_index(old, id) is None,
        mid.len() == old.len() + 1,
        mid.drop_last() == old,
        mid.last()@ == id,
        match first_index(mid, id) {
            Some(k) => new == mid.remove(k),
            None => false,
        },
    ensures
        new == old,
{
    lemma_first_index(old, id);
    lemma_first_index(mid, id);
    let k = first_index(mid, id)->0;
    let last = mid.len() - 1;
    if k < last {
        assert(mid[k] == old[k]);
        assert(old[k]@ == id);
    }
    assert(mid.remove(last) =~= old);
}

/// Clicking a subclass chip on the class page: remove it if shown, else show it.
pub fn toggle_selected(selected: &mut Vec<String>, id: &String)
    ensures
        match first_index(old(selected)@, id@) {
            Some(k) => final(selected)@ == old(selected)@.remove(k),
            None => final(selected)@.drop_last() == old(selected)@ && final(selected)@.len() == old(selected)@.len() + 1
                && final(selected)@.last()@ == id@,
        },
{
    match find_pick(selected, id) {
        Some(k) => {
            selected.remove(k);
        },
        None => {
            selected.push(id.clone());
            proof {
                assert(final(selected)@.drop_last() =~= old(selected)@);
            }
        },
    }
}

/// How many picks exceed the requirement (0 when within it).
pub fn over_quota(picked: usize, required: usize) -> (r: usize)
    ensures
        r == (if picked > required { picked - required } else { 0 }),
{
    if picked > required {
        picked - required
    } else {
        0
    }
}

/// The over-quota banner's text, when over quota.
pub fn over_quota_message(picked: usize, required: usize) -> (r: Option<String>)
    ensures
        picked <= required ==> r is None,
        picked > required ==> (r matches Some(m) && m@ == "You have "@ + decimal((picked - required) as nat)
            + " too many selected here \u{2014} deselect "@ + decimal((picked - required) as nat) + " before continuing."@),
{
    let over = over_quota(picked, required);
    if over == 0 {
        return None;
    }
    let mut s = String::new();
    push_str(&mut s, "You have ");
    push_decimal(&mut s, over as u64);
    push_str(&mut s, " too many selected here \u{2014} deselect ");
    push_decimal(&mut s, over as u64);
    push_str(&mut s, " before continuing.");
    Some(s)
}

/// A pick chip is disabled when it isn't picked and the quota is already met.
pub fn chip_disabled(selected: bool, picked: usize, required: usize) -> (r: bool)
    ensures
        r == (!selected && picked >= required),
{
    !selected && picked >= required
}

/// The per-class tab shown: the remembered tab, clamped to the last tab.
pub fn active_tab(tab: usize, tabs: usize) -> (r: usize)
    ensures
        r == (if tabs == 0 { 0 } else if tab < tabs - 1 { tab as int } else { tabs - 1 }),
{
    let last = if tabs == 0 { 0 } else { tabs - 1 };
    if tab < last {
        tab
    } else {
        last
    }
}

/// A class's required picks: what it may know, capped by what its pool offers.
pub fn capped_requirement(wanted: usize, available: usize) -> (r: usize)
    ensures
        r == (if wanted < available { wanted } else { available }),
{
    if wanted < available {
        wanted
    } else {
        available
    }
}

/// Every slot has a pick and there is one pick per slot.
pub open spec fn filled(choices: Seq<Option<String>>, slots: nat) -> bool {
    choices.len() == slots && forall|i: int| 0 <= i < choices.len() ==> (#[trigger] choices[i]) is Some
}

/// Whether a step's per-slot picks are complete.
pub fn all_filled(choices: &[Option<String>], slots: usize) -> (r: bool)
    ensures
        r == filled(choices@, slots as nat),
{
    if choices.len() != slots {
        return false;
    }
    let mut i: usize = 0;
    while i < choices.len()
        invariant
            i <= choices@.len(),
            forall|j: int| 0 <= j < i ==> (#[trigger] choices@[j]) is Some,
        decreases choices@.len() - i,
    {
        if choices[i].is_none() {
            return false;
        }
        i = i + 1;
    }
    true
}

/// A custom ability bonus is complete with two different abilities.
pub fn custom_bonus_complete(codes: &[String]) -> (r: bool)
    ensures
        r == (codes@.len() == 2 && codes@[0]@ != codes@[1]@),
{
    codes.len() == 2 && !(codes[0] == codes[1])
}

/// The slot holds a pick equal to `id`.
pub open spec fn holds(slot: Option<String>, id: Seq<char>) -> bool {
    match slot {
        Some(g) => g@ == id,
        None => false,
    }
}

/// Whether a subclass-spell slot's option is unavailable: another slot
/// already holds it, or it is already a picked cantrip or spell.
pub fn grant_option_disabled(
    grants: &[Option<String>],
    slot: usize,
    id: &String,
    cantrips: &Vec<String>,
    spells: &Vec<String>,
) -> (r: bool)
    ensures
        r == ((exists|i: int| 0 <= i < grants@.len() && i != slot && #[trigger] holds(grants@[i], id@)) || pool_has(
            cantrips@,
            *id,
        ) || pool_has(spells@, *id)),
{
    let mut i: usize = 0;
    while i < grants.len()
        invariant
            i <= grants@.len(),
            forall|j: int| 0 <= j < i && j != slot ==> !#[trigger] holds(grants@[j], id@),
        decreases grants@.len() - i,
    {
        if i != slot {
            match &grants[i] {
                Some(g) => {
                    if *g == *id {
                        assert(holds(grants@[i as int], id@));
                        return true;
                    }
                },
                None => {},
            }
        }
        i = i + 1;
    }
    crate::matching::pool_contains(cantrips, id) || crate::matching::pool_contains(spells, id)
}

/// What a subclass-spell slot asks for, from its first option's level:
/// a cantrip, a spell of that level, or just a spell when it has no options.
pub open spec fn grant_kind_text(first_level: Option<u8>) -> Seq<char> {
    match first_level {
        Some(l) => if l == 0 { "cantrip"@ } else { "level "@ + decimal(l as nat) + " spell"@ },
        None => "spell"@,
    }
}

/// Heading of a subclass-spell slot, e.g. `"Circle of the Land: choose a cantrip"`.
pub fn grant_slot_heading(source: &String, first_level: Option<u8>) -> (r: String)
    ensures
        r@ == source@ + ": choose a "@ + grant_kind_text(first_level),
{
    let mut s = source.clone();
    push_str(&mut s, ": choose a ");
    match first_level {
        Some(l) => {
            if l == 0 {
                push_str(&mut s, "cantrip");
            } else {
                push_str(&mut s, "level ");
                push_decimal(&mut s, l as u64);
                push_str(&mut s, " spell");
            }
        },
        None => {
            push_str(&mut s, "spell");
        },
    }
    proof {
        assert(s@ =~= source@ + ": choose a "@ + grant_kind_text(first_level));
    }
    s
}

// ---------------------------------------------------------------------------
// Dropdown slots (skills, expertise, tools, languages)
// ---------------------------------------------------------------------------

/// Whether some slot other than `skip` holds `id` (`skip` past the end
/// excludes none).
pub open spec fn held_elsewhere(slots: Seq<Option<String>>, skip: int, id: Seq<char>) -> bool {
    exists|i: int| 0 <= i < slots.len() && i != skip && #[trigger] holds(slots[i], id)
}

fn held_other_than(slots: &[Option<String>], skip: usize, id: &String) -> (r: bool)
    ensures
        r == held_elsewhere(slots@, skip as int, id@),
{
    let mut i: usize = 0;
    while i < slots.len()
        invariant
            i <= slots@.len(),
            forall|j: int| 0 <= j < i && j != skip ==> !#[trigger] holds(slots@[j], id@),
        decreases slots@.len() - i,
    {
        if i != skip {
            match &slots[i] {
                Some(g) => {
                    if *g == *id {
                        assert(holds(slots@[i as int], id@));
                        return true;
                    }
                },
                None => {},
            }
        }
        i = i + 1;
    }
    false
}

/// Whether option `id` is greyed out in dropdown `slot` of a slot list: a
/// fixed grant already gives it, a slot of the companion list holds it (the
/// custom slots for a granted slot and the other way round), or another slot
/// of the same list holds it. Expertise slots have no fixed grants nor
/// companion list.
pub fn slot_option_disabled(
    id: &String,
    slot: usize,
    same: &[Option<String>],
    companion: &[Option<String>],
    fixed: &Vec<String>,
) -> (r: bool)
    ensures
        r == (pool_has(fixed@, *id) || held_elsewhere(companion@, companion@.len() as int, id@) || held_elsewhere(
            same@,
            slot as int,
            id@,
        )),
{
    crate::matching::pool_contains(fixed, id) || held_other_than(companion, companion.len(), id) || held_other_than(
        same,
        slot,
        id,
    )
}

/// A dropdown's new value: the empty placeholder clears the slot.
pub open spec fn picked_value(value: String) -> Option<String> {
    if value@.len() == 0 { None } else { Some(value) }
}

/// Stores a dropdown's new value in `slot`; a slot past the end of the list
/// is ignored.
pub fn set_slot_pick(choices: &mut Vec<Option<String>>, slot: usize, value: String)
    ensures
        slot < old(choices)@.len() ==> final(choices)@ == old(choices)@.update(slot as int, picked_value(value)),
        slot >= old(choices)@.len() ==> final(choices)@ == old(choices)@,
{
    if slot < choices.len() {
        let v = if value.as_str().unicode_len() == 0 { None } else { Some(value) };
        choices.set(slot, v);
    }
}

/// Removes custom slot `slot`; a slot past the end of the list is ignored.
pub fn remove_slot(choices: &mut Vec<Option<String>>, slot: usize)
    ensures
        slot < old(choices)@.len() ==> final(choices)@ == old(choices)@.remove(slot as int),
        slot >= old(choices)@.len() ==> final(choices)@ == old(choices)@,
{
    if slot < choices.len() {
        choices.remove(slot);
    }
}

/// `entries` without any entry equal to `value`, order kept.
pub open spec fn without_value(entries: Seq<String>, value: Seq<char>) -> Seq<String>
    decreases entries.len(),
{
    if entries.len() == 0 {
        seq![]
    } else if entries.last()@ == value {
        without_value(entries.drop_last(), value)
    } else {
        without_value(entries.drop_last(), value).push(entries.last())
    }
}

/// Removes a custom proficiency (every entry equal to it).
pub fn remove_custom_entry(entries: &Vec<String>, value: &String) -> (r: Vec<String>)
    ensures
        r@ == without_value(entries@, value@),
{
    let mut r: Vec<String> = Vec::new();
    let mut i: usize = 0;
    while i < entries.len()
        invariant
            i <= entries@.len(),
            r@ == without_value(entries@.take(i as int), value@),
        decreases entries@.len() - i,
    {
        proof {
            assert(entries@.take(i + 1).drop_last() =~= entries@.take(i as int));
        }
        if !(entries[i] == *value) {
            r.push(entries[i].clone());
        }
        i = i + 1;
    }
    proof {
        assert(entries@.take(entries@.len() as int) =~= entries@);
    }
    r
}

/// No two entries have the same text.
pub open spec fn distinct_entries(entries: Seq<String>) -> bool {
    forall|a: int, b: int| 0 <= a < b < entries.len() ==> (#[trigger] entries[a])@ != (#[trigger] entries[b])@
}

/// The custom proficiencies after choosing `value` in the "+ Custom" picker:
/// the empty placeholder adds nothing; anything else is added at the end.
pub open spec fn with_entry(entries: Seq<String>, value: String) -> Seq<String> {
    if value@.len() == 0 { entries } else { entries.push(value) }
}

/// Adds the custom proficiency chosen in the picker.
pub fn add_custom_entry(entries: &mut Vec<String>, value: String)
    ensures
        final(entries)@ == with_entry(old(entries)@, value),
{
    if value.as_str().unicode_len() > 0 {
        entries.push(value);
    }
}

/// The picker only offers what isn't listed yet, so adding keeps the custom
/// proficiencies free of repeats.
pub proof fn lemma_add_keeps_distinct(entries: Seq<String>, value: String)
    requires
        distinct_entries(entries),
        !pool_has(entries, value),
    ensures
        distinct_entries(with_entry(entries, value)),
{
    if value@.len() > 0 {
        let e2 = entries.push(value);
        assert forall|a: int, b: int| 0 <= a < b < e2.len() implies (#[trigger] e2[a])@ != (#[trigger] e2[b])@ by {
            if b == entries.len() {
                assert(e2[a] == entries[a]);
            } else {
                assert(e2[a] == entries[a] && e2[b] == entries[b]);
            }
        }
    }
}

/// Removing a custom proficiency keeps the list free of repeats, and the
/// removed one is gone.
pub proof fn lemma_remove_keeps_distinct(entries: Seq<String>, value: Seq<char>)
    requires
        distinct_entries(entries),
    ensures
        distinct_entries(without_value(entries, value)),
        forall|k: int| 0 <= k < without_value(entries, value).len() ==> (#[trigger] without_value(entries, value)[k])@ != value,
    decreases entries.len(),
{
    if entries.len() > 0 {
        let d = entries.drop_last();
        assert forall|a: int, b: int| 0 <= a < b < d.len() implies (#[trigger] d[a])@ != (#[trigger] d[b])@ by {
            assert(d[a] == entries[a] && d[b] == entries[b]);
        }
        lemma_remove_keeps_distinct(d, value);
        lemma_without_subset(d, value);
        let w0 = without_value(d, value);
        if entries.last()@ != value {
            let w = w0.push(entries.last());
            assert forall|a: int, b: int| 0 <= a < b < w.len() implies (#[trigger] w[a])@ != (#[trigger] w[b])@ by {
                if b == w0.len() {
                    assert(w[a] == w0[a]);
                    let k = choose|k: int| 0 <= k < d.len() && d[k] == w0[a];
                    assert(entries[k] == d[k]);
                    assert(entries[entries.len() - 1] == entries.last());
                } else {
                    assert(w[a] == w0[a] && w[b] == w0[b]);
                }
            }
            assert forall|k: int| 0 <= k < w.len() implies (#[trigger] w[k])@ != value by {
                if k < w0.len() {
                    assert(w[k] == w0[k]);
                }
            }
        }
    }
}

proof fn lemma_without_subset(entries: Seq<String>, value: Seq<char>)
    ensures
        forall|k: int|
            0 <= k < without_value(entries, value).len() ==> exists|j: int|
                0 <= j < entries.len() && entries[j] == #[trigger] without_value(entries, value)[k],
    decreases entries.len(),
{
    if entries.len() > 0 {
        let d = entries.drop_last();
        lemma_without_subset(d, value);
        let w0 = without_value(d, value);
        assert forall|k: int| 0 <= k < without_value(entries, value).len() implies exists|j: int|
            0 <= j < entries.len() && entries[j] == #[trigger] without_value(entries, value)[k] by {
            if k < w0.len() {
                assert(without_value(entries, value)[k] == w0[k]);
                let j = choose|j: int| 0 <= j < d.len() && d[j] == w0[k];
                assert(entries[j] == d[j]);
            } else {
                assert(entries[entries.len() - 1] == without_value(entries, value)[k]);
            }
        }
    }
}

/// The picks made in a list of slots, in slot order, empty slots left out.
pub open spec fn made_picks(slots: Seq<Option<String>>) -> Seq<Seq<char>>
    decreases slots.len(),
{
    if slots.len() == 0 {
        seq![]
    } else {
        match slots.last() {
            Some(v) => made_picks(slots.drop_last()).push(v@),
            None => made_picks(slots.drop_last()),
        }
    }
}

/// The list a saved character keeps for a set of choice slots: the pick of
/// each filled slot, in slot order.
pub fn flatten_picks(slots: &[Option<String>]) -> (r: Vec<String>)
    ensures
        views(r@) == made_picks(slots@),
{
    let mut r: Vec<String> = Vec::new();
    let mut i: usize = 0;
    while i < slots.len()
        invariant
            i <= slots@.len(),
            views(r@) == made_picks(slots@.take(i as int)),
        decreases slots@.len() - i,
    {
        proof {
            assert(slots@.take(i + 1).drop_last() =~= slots@.take(i as int));
        }
        match &slots[i] {
            Some(v) => {
                let ghost before = r@;
                r.push(v.clone());
                proof {
                    assert(views(r@) =~= views(before).push(v@));
                }
            },
            None => {},
        }
        i = i + 1;
    }
    proof {
        assert(slots@.take(slots@.len() as int) =~= slots@);
    }
    r
}

} // verus!
