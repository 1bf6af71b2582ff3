//! The builder's class list: adding, removing and levelling classes in a
//! multiclass build, capped at 20 total levels.
use vstd::prelude::*;
use crate::builder::ClassLevel;

verus! {

/// Sum of all class levels.
pub open spec fn total_levels(classes: Seq<ClassLevel>) -> int
    decreases classes.len(),
{
    if classes.len() == 0 {
        0
    } else {
        total_levels(classes.drop_last()) + classes.last().level
    }
}

/// Total character level, saturating at 255.
pub fn total_level(classes: &[ClassLevel]) -> (r: u8)
    ensures
        r == (if total_levels(classes@) > 255 { 255 } else { total_levels(classes@) }),
{
    let mut acc: u8 = 0;
    let mut i: usize = 0;
    while i < classes.len()
        invariant
            i <= classes@.len(),
            acc == (if total_levels(classes@.take(i as int)) > 255 { 255 } else { total_levels(classes@.take(i as int)) }),
        decreases classes@.len() - i,
    {
        proof {
            assert(classes@.take(i + 1).drop_last() =~= classes@.take(i as int));
            lemma_total_nonneg(classes@.take(i as int));
        }
        let l = classes[i].level;
        acc = if acc > 255 - l { 255 } else { acc + l };
        i = i + 1;
    }
    proof {
        assert(classes@.take(classes@.len() as int) =~= classes@);
    }
    acc
}

proof fn lemma_total_nonneg(classes: Seq<ClassLevel>)
    ensures
        total_levels(classes) >= 0,
    decreases classes.len(),
{
    if classes.len() > 0 {
        lemma_total_nonneg(classes.drop_last());
    }
}

/// A class with this id is in the list.
pub open spec fn has_class(classes: Seq<ClassLevel>, id: Seq<char>) -> bool {
    exists|k: int| 0 <= k < classes.len() && #[trigger] classes[k].class_id@ == id
}

/// A well-formed build: no class twice, every class at level 1-20, at most
/// 20 levels in total.
pub open spec fn build_ok(classes: Seq<ClassLevel>) -> bool {
    &&& forall|a: int, b: int| 0 <= a < b < classes.len() ==> (#[trigger] classes[a]).class_id@ != (
    #[trigger] classes[b]).class_id@
    &&& forall|k: int| 0 <= k < classes.len() ==> 1 <= (#[trigger] classes[k]).level <= 20
    &&& total_levels(classes) <= 20
}

fn find_class(classes: &[ClassLevel], id: &String) -> (r: Option<usize>)
    ensures
        match r {
            Some(k) => k < classes@.len() && classes@[k as int].class_id@ == id@ && forall|j: int|
                0 <= j < k ==> (#[trigger] classes@[j]).class_id@ != id@,
            None => !has_class(classes@, id@),
        },
{
    let mut k: usize = 0;
    while k < classes.len()
        invariant
            k <= classes@.len(),
            forall|j: int| 0 <= j < k ==> (#[trigger] classes@[j]).class_id@ != id@,
        decreases classes@.len() - k,
    {
        if classes[k].class_id == *id {
            return Some(k);
        }
        k = k + 1;
    }
    None
}

/// Whether the class can be added: under 20 levels in total and not already in the build.
pub fn can_add_class(classes: &[ClassLevel], id: &String) -> (r: bool)
    ensures
        r == (total_levels(classes@) < 20 && !has_class(classes@, id@)),
{
    let total = total_level(classes);
    total < 20 && find_class(classes, id).is_none()
}

/// Adds a class at level 1 without a subclass.
pub fn add_class(classes: &mut Vec<ClassLevel>, class_id: String)
    ensures
        final(classes)@.len() == old(classes)@.len() + 1,
        final(classes)@.drop_last() == old(classes)@,
        final(classes)@.last().class_id == class_id,
        final(classes)@.last().subclass_id is None,
        final(classes)@.last().level == 1,
{
    classes.push(ClassLevel { class_id, subclass_id: None, level: 1 });
    proof {
        assert(final(classes)@.drop_last() =~= old(classes)@);
    }
}

/// Adding an allowed class keeps the build well formed.
pub proof fn lemma_add_keeps_build_ok(classes: Seq<ClassLevel>, added: ClassLevel)
    requires
        build_ok(classes),
        total_levels(classes) < 20,
        !has_class(classes, added.class_id@),
        added.level == 1,
    ensures
        build_ok(classes.push(added)),
{
    let c2 = classes.push(added);
    assert(c2.drop_last() =~= classes);
    assert forall|a: int, b: int| 0 <= a < b < c2.len() implies (#[trigger] c2[a]).class_id@ != (
    #[trigger] c2[b]).class_id@ by {
        if b == classes.len() {
            assert(c2[a] == classes[a]);
        } else {
            assert(c2[a] == classes[a]);
            assert(c2[b] == classes[b]);
        }
    }
}

/// Whether a class's level can be raised: under 20 levels in total.
pub fn can_raise_level(classes: &[ClassLevel]) -> (r: bool)
    ensures
        r == (total_levels(classes@) < 20),
{
    total_level(classes) < 20
}

/// Index of the first class with `id`, if any.
pub open spec fn find_first(classes: Seq<ClassLevel>, id: Seq<char>) -> Option<int> {
    if has_class(classes, id) {
        Some(choose|k: int| 0 <= k < classes.len() && classes[k].class_id@ == id && forall|j: int| 0 <= j < k ==> #[trigger] classes[j].class_id@ != id)
    } else {
        None
    }
}

/// The class list with class `k`'s level set to `level`.
pub open spec fn with_level(classes: Seq<ClassLevel>, k: int, level: u8) -> Seq<ClassLevel> {
    classes.update(k, ClassLevel { class_id: classes[k].class_id, subclass_id: classes[k].subclass_id, level })
}

/// The level a class moves to: one step up (at most 20) or down (at least 1).
pub open spec fn stepped_level(l: u8, up: bool) -> u8 {
    if up {
        if l >= 20 { 20 } else { (l + 1) as u8 }
    } else {
        if l <= 2 { 1 } else { (l - 1) as u8 }
    }
}

proof fn lemma_find_first(classes: Seq<ClassLevel>, id: Seq<char>, k: int)
    requires
        0 <= k < classes.len(),
        classes[k].class_id@ == id,
        forall|j: int| 0 <= j < k ==> (#[trigger] classes[j]).class_id@ != id,
    ensures
        find_first(classes, id) == Some(k),
{
    let c = choose|c: int| 0 <= c < classes.len() && classes[c].class_id@ == id && forall|j: int| 0 <= j < c ==> #[trigger] classes[j].class_id@ != id;
    if c < k {
        assert(classes[c].class_id@ != id);
    } else if c > k {
        assert(classes[k].class_id@ != id);
    }
}

/// Raises (`up`) or lowers the level of the first class with `id` by one
/// step, never above 20 nor below 1. Nothing changes when no class has `id`.
pub fn change_level(classes: &mut Vec<ClassLevel>, id: &String, up: bool)
    ensures
        match find_first(old(classes)@, id@) {
            Some(k) => final(classes)@ == with_level(old(classes)@, k, stepped_level(old(classes)@[k].level, up)),
            None => final(classes)@ == old(classes)@,
        },
{
    match find_class(classes.as_slice(), id) {
        Some(k) => {
            proof {
                lemma_find_first(classes@, id@, k as int);
            }
            let l = classes[k].level;
            let new_level = if up {
                if l >= 20 { 20 } else { l + 1 }
            } else {
                if l <= 2 { 1 } else { l - 1 }
            };
            classes[k].level = new_level;
            proof {
                assert(classes@ =~= with_level(old(classes)@, k as int, stepped_level(l, up)));
            }
        },
        None => {},
    }
}

/// Total levels after changing one class's level.
proof fn lemma_total_with_level(classes: Seq<ClassLevel>, k: int, level: u8)
    requires
        0 <= k < classes.len(),
    ensures
        total_levels(with_level(classes, k, level)) == total_levels(classes) - classes[k].level + level,
    decreases classes.len(),
{
    let c2 = with_level(classes, k, level);
    if k == classes.len() - 1 {
        assert(c2.drop_last() =~= classes.drop_last());
    } else {
        lemma_total_with_level(classes.drop_last(), k, level);
        assert(c2.drop_last() =~= with_level(classes.drop_last(), k, level));
    }
}

/// Raising a level while under 20 total, or lowering one, keeps the build well formed.
pub proof fn lemma_change_level_keeps_build_ok(classes: Seq<ClassLevel>, k: int, up: bool)
    requires
        build_ok(classes),
        0 <= k < classes.len(),
        up ==> total_levels(classes) < 20,
    ensures
        build_ok(with_level(classes, k, stepped_level(classes[k].level, up))),
{
    let c2 = with_level(classes, k, stepped_level(classes[k].level, up));
    lemma_total_with_level(classes, k, stepped_level(classes[k].level, up));
    assert forall|a: int, b: int| 0 <= a < b < c2.len() implies (#[trigger] c2[a]).class_id@ != (
    #[trigger] c2[b]).class_id@ by {
        assert(c2[a].class_id == classes[a].class_id);
        assert(c2[b].class_id == classes[b].class_id);
    }
    assert forall|j: int| 0 <= j < c2.len() implies 1 <= (#[trigger] c2[j]).level <= 20 by {
        if j != k {
            assert(c2[j] == classes[j]);
        }
    }
}

/// Sets the subclass of the first class with `id`; nothing changes when no
/// class has `id`.
pub fn set_subclass(classes: &mut Vec<ClassLevel>, id: &String, subclass_id: String)
    ensures
        match find_first(old(classes)@, id@) {
            Some(k) => final(classes)@ == old(classes)@.update(
                k,
                ClassLevel {
                    class_id: old(classes)@[k].class_id,
                    subclass_id: Some(subclass_id),
                    level: old(classes)@[k].level,
                },
            ),
            None => final(classes)@ == old(classes)@,
        },
{
    match find_class(classes.as_slice(), id) {
        Some(k) => {
            proof {
                lemma_find_first(classes@, id@, k as int);
            }
            classes[k].subclass_id = Some(subclass_id);
        },
        None => {},
    }
}

/// The classes other than `id`, in order.
pub open spec fn without_class(classes: Seq<ClassLevel>, id: Seq<char>) -> Seq<ClassLevel>
    decreases classes.len(),
{
    if classes.len() == 0 {
        seq![]
    } else if classes.last().class_id@ == id {
        without_class(classes.drop_last(), id)
    } else {
        without_class(classes.drop_last(), id).push(classes.last())
    }
}

/// Removes the class with `id` from the build.
pub fn remove_class(classes: Vec<ClassLevel>, id: &String) -> (r: Vec<ClassLevel>)
    ensures
        r@ == without_class(classes@, id@),
{
    let ghost all = classes@;
    let total = classes.len();
    let mut r: Vec<ClassLevel> = Vec::new();
    let mut i: usize = 0;
    for c in it: classes.into_iter()
        invariant
            all == it.seq(),
            i == it.index(),
            i <= all.len(),
            total == all.len(),
            r@ == without_class(all.take(i as int), id@),
    {
        proof {
            assert(c == all[i as int]);
            assert(all.take(i + 1).drop_last() =~= all.take(i as int));
            assert(all.take(i + 1).last() == c);
        }
        if c.class_id != *id {
            r.push(c);
        }
        i = i + 1;
    }
    proof {
        assert(all.take(all.len() as int) =~= all);
    }
    r
}

/// `c` is one of the classes.
pub open spec fn member(classes: Seq<ClassLevel>, c: ClassLevel) -> bool {
    exists|k: int| 0 <= k < classes.len() && classes[k] == c
}

/// Ids are pairwise different.
pub open spec fn ids_distinct(classes: Seq<ClassLevel>) -> bool {
    forall|a: int, b: int| 0 <= a < b < classes.len() ==> (#[trigger] classes[a]).class_id@ != (
    #[trigger] classes[b]).class_id@
}

proof fn lemma_without_members(classes: Seq<ClassLevel>, id: Seq<char>)
    ensures
        total_levels(without_class(classes, id)) <= total_levels(classes),
        forall|j: int| 0 <= j < without_class(classes, id).len() ==> #[trigger] member(classes, without_class(classes, id)[j]),
    decreases classes.len(),
{
    if classes.len() > 0 {
        let d = classes.drop_last();
        lemma_without_members(d, id);
        lemma_total_nonneg(d);
        let w = without_class(classes, id);
        let w0 = without_class(d, id);
        if classes.last().class_id@ != id {
            assert(w.drop_last() =~= w0);
        }
        assert forall|j: int| 0 <= j < w.len() implies #[trigger] member(classes, w[j]) by {
            if j < w0.len() {
                assert(w[j] == w0[j]);
                assert(member(d, w0[j]));
                let k = choose|k: int| 0 <= k < d.len() && d[k] == w0[j];
                assert(classes[k] == d[k]);
            } else {
                assert(classes[classes.len() - 1] == w[j]);
            }
        }
    }
}

proof fn lemma_without_distinct(classes: Seq<ClassLevel>, id: Seq<char>)
    requires
        ids_distinct(classes),
    ensures
        ids_distinct(without_class(classes, id)),
    decreases classes.len(),
{
    if classes.len() > 0 {
        let d = classes.drop_last();
        assert(ids_distinct(d)) by {
            assert forall|a: int, b: int| 0 <= a < b < d.len() implies (#[trigger] d[a]).class_id@ != (#[trigger] d[b]).class_id@ by {
                assert(d[a] == classes[a]);
                assert(d[b] == classes[b]);
            }
        }
        lemma_without_distinct(d, id);
        lemma_without_members(d, id);
        let w = without_class(classes, id);
        let w0 = without_class(d, id);
        if classes.last().class_id@ != id {
            assert forall|a: int, b: int| 0 <= a < b < w.len() implies (#[trigger] w[a]).class_id@ != (#[trigger] w[b]).class_id@ by {
                if b == w.len() - 1 {
                    assert(w[a] == w0[a]);
                    assert(member(d, w0[a]));
                    let k = choose|k: int| 0 <= k < d.len() && d[k] == w0[a];
                    assert(classes[k] == d[k]);
                    assert(classes[k].class_id@ != classes[classes.len() - 1].class_id@);
                } else {
                    assert(w[a] == w0[a]);
                    assert(w[b] == w0[b]);
                }
            }
        }
    }
}

/// Removing a class keeps the build well formed.
pub proof fn lemma_remove_keeps_build_ok(classes: Seq<ClassLevel>, id: Seq<char>)
    requires
        build_ok(classes),
    ensures
        build_ok(without_class(classes, id)),
{
    lemma_without_members(classes, id);
    lemma_without_distinct(classes, id);
    let w = without_class(classes, id);
    assert forall|j: int| 0 <= j < w.len() implies 1 <= (#[trigger] w[j]).level <= 20 by {
        assert(member(classes, w[j]));
        let k = choose|k: int| 0 <= k < classes.len() && classes[k] == w[j];
    }
}

} // verus!
