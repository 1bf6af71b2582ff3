//! Slot layouts the builder derives from the class list: unlocked ASI slots,
//! subclass spell-grant slots, subclasses kept on save, and the names shown
//! for picked ids.
use vstd::prelude::*;
use crate::builder::{key_views, ClassLevel};
use crate::text::{clone_strings, views};

verus! {

// ---------------------------------------------------------------------------
// ASI slots
// ---------------------------------------------------------------------------

/// The ASI levels of `levels` that are at most `level`, in order.
pub open spec fn levels_upto(levels: Seq<u8>, level: u8) -> Seq<u8>
    decreases levels.len(),
{
    if levels.len() == 0 {
        seq![]
    } else if levels.last() <= level {
        levels_upto(levels.drop_last(), level).push(levels.last())
    } else {
        levels_upto(levels.drop_last(), level)
    }
}

/// Keys of one class's unlocked ASI slots.
pub open spec fn class_asi_keys(id: Seq<char>, levels: Seq<u8>, level: u8) -> Seq<(Seq<char>, u8)> {
    levels_upto(levels, level).map_values(|l: u8| (id, l))
}

/// Keys `(class id, ASI level)` of every unlocked ASI slot, class by class:
/// class `k`'s ASI levels (`asi_levels[k]`) up to its current level.
pub open spec fn asi_keys_spec(classes: Seq<ClassLevel>, asi_levels: Seq<Vec<u8>>) -> Seq<(Seq<char>, u8)>
    decreases classes.len(),
{
    if classes.len() == 0 {
        seq![]
    } else {
        let k = classes.len() - 1;
        asi_keys_spec(classes.drop_last(), asi_levels) + class_asi_keys(
            classes[k].class_id@,
            asi_levels[k]@,
            classes[k].level,
        )
    }
}

pub(crate) fn push_class_asi_keys(keys: &mut Vec<(String, u8)>, id: &String, levels: &Vec<u8>, level: u8)
    ensures
        key_views(final(keys)@) == key_views(old(keys)@) + class_asi_keys(id@, levels@, level),
{
    let ghost start = key_views(keys@);
    let mut j: usize = 0;
    while j < levels.len()
        invariant
            j <= levels@.len(),
            key_views(keys@) == start + class_asi_keys(id@, levels@.take(j as int), level),
        decreases levels@.len() - j,
    {
        proof {
            assert(levels@.take(j + 1).drop_last() =~= levels@.take(j as int));
        }
        proof {
            assert(levels@.take(j + 1).last() == levels@[j as int]);
        }
        if levels[j] <= level {
            let ghost before = keys@;
            let copy = id.clone();
            keys.push((copy, levels[j]));
            proof {
                assert(levels_upto(levels@.take(j + 1), level) =~= levels_upto(levels@.take(j as int), level).push(
                    levels@[j as int],
                ));
                assert(key_views(keys@) =~= key_views(before).push((id@, levels@[j as int])));
                assert(class_asi_keys(id@, levels@.take(j + 1), level) =~= class_asi_keys(
                    id@,
                    levels@.take(j as int),
                    level,
                ).push((id@, levels@[j as int])));
                assert(key_views(keys@) =~= start + class_asi_keys(id@, levels@.take(j + 1), level));
            }
        } else {
            proof {
                assert(class_asi_keys(id@, levels@.take(j + 1), level) =~= class_asi_keys(
                    id@,
                    levels@.take(j as int),
                    level,
                ));
            }
        }
        j = j + 1;
    }
    proof {
        assert(levels@.take(levels@.len() as int) =~= levels@);
    }
}

/// The key of every unlocked ASI slot, in slot order; `asi_levels[k]` lists
/// the levels at which class `k` grants an ASI.
pub fn asi_slot_keys(classes: &[ClassLevel], asi_levels: &[Vec<u8>]) -> (r: Vec<(String, u8)>)
    requires
        asi_levels@.len() == classes@.len(),
    ensures
        key_views(r@) == asi_keys_spec(classes@, asi_levels@),
{
    let mut r: Vec<(String, u8)> = Vec::new();
    assert(key_views(r@) =~= Seq::<(Seq<char>, u8)>::empty());
    let mut i: usize = 0;
    while i < classes.len()
        invariant
            i <= classes@.len(),
            asi_levels@.len() == classes@.len(),
            key_views(r@) == asi_keys_spec(classes@.take(i as int), asi_levels@),
        decreases classes@.len() - i,
    {
        proof {
            let t = classes@.take(i + 1);
            assert(t.drop_last() =~= classes@.take(i as int));
            assert(t[i as int] == classes@[i as int]);
        }
        push_class_asi_keys(&mut r, &classes[i].class_id, &asi_levels[i], classes[i].level);
        i = i + 1;
    }
    proof {
        assert(classes@.take(classes@.len() as int) =~= classes@);
    }
    r
}

// ---------------------------------------------------------------------------
// Subclass spell-grant slots
// ---------------------------------------------------------------------------

/// Options of each slot.
pub open spec fn slot_views(slots: Seq<Vec<String>>) -> Seq<Seq<Seq<char>>> {
    slots.map_values(|v: Vec<String>| views(v@))
}

/// One slot per pick of each subclass spell-choice pool, in order: a pool of
/// `count` picks becomes `count` slots offering its options; a pool with no
/// options gives none.
pub open spec fn grant_slots(pools: Seq<(u8, Vec<String>)>) -> Seq<Seq<Seq<char>>>
    decreases pools.len(),
{
    if pools.len() == 0 {
        seq![]
    } else {
        let p = pools.last();
        grant_slots(pools.drop_last()) + if p.1@.len() == 0 {
            Seq::<Seq<Seq<char>>>::empty()
        } else {
            Seq::new(p.0 as nat, |_i: int| views(p.1@))
        }
    }
}

fn push_copies(slots: &mut Vec<Vec<String>>, options: &Vec<String>, count: u8)
    ensures
        slot_views(final(slots)@) == slot_views(old(slots)@) + Seq::new(count as nat, |_i: int| views(options@)),
{
    let ghost start = slot_views(slots@);
    let mut c: u8 = 0;
    while c < count
        invariant
            c <= count,
            slot_views(slots@) == start + Seq::new(c as nat, |_i: int| views(options@)),
        decreases count - c,
    {
        let copy = clone_strings(options);
        let ghost before = slots@;
        slots.push(copy);
        proof {
            assert(slot_views(slots@) =~= slot_views(before).push(views(options@)));
            assert(slot_views(slots@) =~= start + Seq::new((c + 1) as nat, |_i: int| views(options@)));
        }
        c = c + 1;
    }
}

/// The subclass spell-grant slots of `pools` (`(count, options)` each).
pub fn expand_grant_slots(pools: &[(u8, Vec<String>)]) -> (r: Vec<Vec<String>>)
    ensures
        slot_views(r@) == grant_slots(pools@),
{
    let mut r: Vec<Vec<String>> = Vec::new();
    assert(slot_views(r@) =~= Seq::<Seq<Seq<char>>>::empty());
    let mut i: usize = 0;
    while i < pools.len()
        invariant
            i <= pools@.len(),
            slot_views(r@) == grant_slots(pools@.take(i as int)),
        decreases pools@.len() - i,
    {
        proof {
            let t = pools@.take(i + 1);
            assert(t.drop_last() =~= pools@.take(i as int));
            assert(t.last() == pools@[i as int]);
        }
        if pools[i].1.len() > 0 {
            push_copies(&mut r, &pools[i].1, pools[i].0);
        } else {
            proof {
                assert(slot_views(r@) =~= grant_slots(pools@.take(i + 1)));
            }
        }
        i = i + 1;
    }
    proof {
        assert(pools@.take(pools@.len() as int) =~= pools@);
    }
    r
}

// ---------------------------------------------------------------------------
// Subclasses kept on save
// ---------------------------------------------------------------------------

/// A class as saved: its subclass is kept only once the subclass choice has
/// unlocked (`unlock`: the class level that unlocks it, if the class has one).
pub open spec fn settled(c: ClassLevel, unlock: Option<u8>) -> ClassLevel {
    ClassLevel {
        class_id: c.class_id,
        subclass_id: if (unlock matches Some(u) && u <= c.level) {
            c.subclass_id
        } else {
            None
        },
        level: c.level,
    }
}

/// Drops the subclass of every class whose subclass choice hasn't unlocked
/// at its level; `unlock_levels[k]` is class `k`'s unlock level (a class
/// without one listed keeps no subclass).
pub fn settle_subclasses(classes: Vec<ClassLevel>, unlock_levels: &[Option<u8>]) -> (r: Vec<ClassLevel>)
    ensures
        r@.len() == classes@.len(),
        forall|k: int| 0 <= k < classes@.len() ==> #[trigger] r@[k] == settled(
            classes@[k],
            if k < unlock_levels@.len() {
                unlock_levels@[k]
            } else {
                None
            },
        ),
{
    let ghost orig = classes@;
    let mut classes = classes;
    let mut k: usize = 0;
    while k < classes.len()
        invariant
            k <= classes@.len(),
            classes@.len() == orig.len(),
            forall|j: int| 0 <= j < k ==> #[trigger] classes@[j] == settled(
                orig[j],
                if j < unlock_levels@.len() {
                    unlock_levels@[j]
                } else {
                    None
                },
            ),
            forall|j: int| k <= j < classes@.len() ==> #[trigger] classes@[j] == orig[j],
        decreases classes@.len() - k,
    {
        let unlocked = k < unlock_levels.len() && match unlock_levels[k] {
            Some(u) => u <= classes[k].level,
            None => false,
        };
        if !unlocked {
            classes[k].subclass_id = None;
        }
        k = k + 1;
    }
    classes
}

// ---------------------------------------------------------------------------
// Names of picked ids
// ---------------------------------------------------------------------------

/// Name of the first catalog entry (`(id, name)`) with `id`, if any.
pub open spec fn name_of(catalog: Seq<(String, String)>, id: Seq<char>) -> Option<Seq<char>>
    decreases catalog.len(),
{
    if catalog.len() == 0 {
        None
    } else {
        match name_of(catalog.drop_last(), id) {
            Some(n) => Some(n),
            None => if catalog.last().0@ == id {
                Some(catalog.last().1@)
            } else {
                None
            },
        }
    }
}

/// Names of the picked ids the catalog lists, in pick order; ids it doesn't
/// list are left out.
pub open spec fn picked_names_spec(ids: Seq<String>, catalog: Seq<(String, String)>) -> Seq<Seq<char>>
    decreases ids.len(),
{
    if ids.len() == 0 {
        seq![]
    } else {
        picked_names_spec(ids.drop_last(), catalog) + match name_of(catalog, ids.last()@) {
            Some(n) => seq![n],
            None => seq![],
        }
    }
}

proof fn lemma_name_of(catalog: Seq<(String, String)>, id: Seq<char>)
    ensures
        match name_of(catalog, id) {
            Some(n) => exists|k: int|
                0 <= k < catalog.len() && catalog[k].0@ == id && catalog[k].1@ == n && forall|j: int|
                    0 <= j < k ==> (#[trigger] catalog[j]).0@ != id,
            None => forall|j: int| 0 <= j < catalog.len() ==> (#[trigger] catalog[j]).0@ != id,
        },
    decreases catalog.len(),
{
    if catalog.len() > 0 {
        let d = catalog.drop_last();
        lemma_name_of(d, id);
        match name_of(d, id) {
            Some(n) => {
                let k = choose|k: int|
                    0 <= k < d.len() && d[k].0@ == id && d[k].1@ == n && forall|j: int| 0 <= j < k ==> (#[trigger] d[j]).0@ != id;
                assert(catalog[k] == d[k]);
                assert forall|j: int| 0 <= j < k implies (#[trigger] catalog[j]).0@ != id by {
                    assert(catalog[j] == d[j]);
                }
            },
            None => {
                assert forall|j: int| 0 <= j < catalog.len() - 1 implies (#[trigger] catalog[j]).0@ != id by {
                    assert(catalog[j] == d[j]);
                }
            },
        }
    }
}

fn find_name(catalog: &[(String, String)], id: &String) -> (r: Option<String>)
    ensures
        match r {
            Some(n) => name_of(catalog@, id@) == Some(n@),
            None => name_of(catalog@, id@) is None,
        },
{
    proof {
        lemma_name_of(catalog@, id@);
    }
    let mut k: usize = 0;
    while k < catalog.len()
        invariant
            k <= catalog@.len(),
            forall|j: int| 0 <= j < k ==> (#[trigger] catalog@[j]).0@ != id@,
            match name_of(catalog@, id@) {
                Some(n) => exists|m: int|
                    0 <= m < catalog@.len() && catalog@[m].0@ == id@ && catalog@[m].1@ == n && forall|j: int|
                        0 <= j < m ==> (#[trigger] catalog@[j]).0@ != id@,
                None => forall|j: int| 0 <= j < catalog@.len() ==> (#[trigger] catalog@[j]).0@ != id@,
            },
        decreases catalog@.len() - k,
    {
        if catalog[k].0 == *id {
            proof {
                match name_of(catalog@, id@) {
                    Some(n) => {
                        let m = choose|m: int|
                            0 <= m < catalog@.len() && catalog@[m].0@ == id@ && catalog@[m].1@ == n && forall|j: int|
                                0 <= j < m ==> (#[trigger] catalog@[j]).0@ != id@;
                        if m < k {
                            assert(catalog@[m].0@ != id@);
                        } else if m > k {
                            assert(catalog@[k as int].0@ != id@);
                        }
                    },
                    None => {
                        assert(catalog@[k as int].0@ != id@);
                    },
                }
            }
            return Some(catalog[k].1.clone());
        }
        k = k + 1;
    }
    proof {
        match name_of(catalog@, id@) {
            Some(n) => {
                let m = choose|m: int|
                    0 <= m < catalog@.len() && catalog@[m].0@ == id@ && catalog@[m].1@ == n && forall|j: int|
                        0 <= j < m ==> (#[trigger] catalog@[j]).0@ != id@;
                assert(catalog@[m].0@ != id@);
            },
            None => {},
        }
    }
    None
}

/// The names shown for picked ids (cantrips, spells, optional features).
pub fn picked_names(ids: &[String], catalog: &[(String, String)]) -> (r: Vec<String>)
    ensures
        views(r@) == picked_names_spec(ids@, catalog@),
{
    let mut r: Vec<String> = Vec::new();
    assert(views(r@) =~= Seq::<Seq<char>>::empty());
    let mut i: usize = 0;
    while i < ids.len()
        invariant
            i <= ids@.len(),
            views(r@) == picked_names_spec(ids@.take(i as int), catalog@),
        decreases ids@.len() - i,
    {
        proof {
            let t = ids@.take(i + 1);
            assert(t.drop_last() =~= ids@.take(i as int));
            assert(t.last() == ids@[i as int]);
        }
        match find_name(catalog, &ids[i]) {
            Some(n) => {
                let ghost before = r@;
                r.push(n);
                proof {
                    assert(views(r@) =~= views(before).push(n@));
                }
            },
            None => {
                proof {
                    assert(picked_names_spec(ids@.take(i + 1), catalog@) =~= picked_names_spec(
                        ids@.take(i as int),
                        catalog@,
                    ));
                }
            },
        }
        i = i + 1;
    }
    proof {
        assert(ids@.take(ids@.len() as int) =~= ids@);
    }
    r
}

} // verus!
