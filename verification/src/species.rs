//! Species rows as the builder lists them: grouped by name, with a one-line subtitle.
use vstd::prelude::*;
use crate::text::{join, join_strings, nonempty, views};

verus! {

/// How a species raises ability scores.
pub enum AbilityBonusGrant {
    /// A fixed bonus to one ability.
    Fixed { ability: String, amount: i8 },
    /// `count` abilities of the player's choice (from `from`, or any when
    /// `from` is empty or holds `"any"`) each gain `amount`.
    Choose { count: u8, amount: i8, from: Vec<String> },
}

/// One species (a reprint of the same species from another source is a separate row).
pub struct Species {
    pub id: String,
    pub canonical_id: String,
    pub name: String,
    pub source: String,
    pub ability: Option<String>,
    pub ability_bonuses: Vec<AbilityBonusGrant>,
    pub size: Option<String>,
    pub speed: Option<String>,
    pub darkvision: Option<u32>,
    pub entries: Vec<String>,
}

/// The rows of `rows` named `name`, in order.
pub open spec fn members_named(rows: Seq<Species>, name: Seq<char>) -> Seq<Species>
    decreases rows.len(),
{
    if rows.len() == 0 {
        seq![]
    } else if rows.last().name@ == name {
        members_named(rows.drop_last(), name).push(rows.last())
    } else {
        members_named(rows.drop_last(), name)
    }
}

/// Some row named `a` comes before every row named `b`.
pub open spec fn occurs_before(rows: Seq<Species>, a: Seq<char>, b: Seq<char>) -> bool {
    exists|i: int|
        0 <= i < rows.len() && #[trigger] rows[i].name@ == a && forall|j: int| 0 <= j <= i ==> #[trigger] rows[j].name@ != b
}

/// `groups` is `rows` grouped by name: one group per distinct name, in order of
/// each name's first row, each holding exactly that name's rows in order.
pub open spec fn grouped_by_name(rows: Seq<Species>, groups: Seq<(String, Vec<Species>)>) -> bool {
    &&& forall|g: int| 0 <= g < groups.len() ==> (#[trigger] groups[g]).1@ == members_named(rows, groups[g].0@)
    &&& forall|g: int| 0 <= g < groups.len() ==> (#[trigger] groups[g]).1@.len() > 0
    &&& forall|g1: int, g2: int|
        0 <= g1 < g2 < groups.len() ==> (#[trigger] groups[g1]).0@ != (#[trigger] groups[g2]).0@
    &&& forall|i: int| 0 <= i < rows.len() ==> exists|g: int| 0 <= g < groups.len() && (#[trigger] groups[g]).0@ == (
    #[trigger] rows[i]).name@
    &&& forall|g1: int, g2: int|
        0 <= g1 < g2 < groups.len() ==> occurs_before(rows, (#[trigger] groups[g1]).0@, (#[trigger] groups[g2]).0@)
}

proof fn lemma_members_absent(rows: Seq<Species>, name: Seq<char>)
    requires
        forall|j: int| 0 <= j < rows.len() ==> #[trigger] rows[j].name@ != name,
    ensures
        members_named(rows, name) == Seq::<Species>::empty(),
    decreases rows.len(),
{
    if rows.len() > 0 {
        lemma_members_absent(rows.drop_last(), name);
    }
}

proof fn lemma_members_nonempty(rows: Seq<Species>, name: Seq<char>)
    requires
        members_named(rows, name).len() > 0,
    ensures
        exists|w: int| 0 <= w < rows.len() && #[trigger] rows[w].name@ == name,
    decreases rows.len(),
{
    if rows.last().name@ != name {
        lemma_members_nonempty(rows.drop_last(), name);
        let w = choose|w: int| 0 <= w < rows.drop_last().len() && #[trigger] rows.drop_last()[w].name@ == name;
        assert(rows[w] == rows.drop_last()[w]);
    } else {
        assert(rows[rows.len() - 1].name@ == name);
    }
}

/// Groups species rows by name, keeping each name's first-occurrence order, so
/// reprints of one species collapse into a single entry.
pub fn group_species_by_name(rows: Vec<Species>) -> (groups: Vec<(String, Vec<Species>)>)
    ensures
        grouped_by_name(rows@, groups@),
{
    let ghost all = rows@;
    let total = rows.len();
    let mut groups: Vec<(String, Vec<Species>)> = Vec::new();
    let mut i: usize = 0;
    for species in it: rows.into_iter()
        invariant
            all == it.seq(),
            i == it.index(),
            i <= all.len(),
            total == all.len(),
            grouped_by_name(all.take(i as int), groups@),
    {
        let ghost done = all.take(i as int);
        let ghost next = all.take(i + 1);
        proof {
            assert(species == all[i as int]);
            assert(next.drop_last() =~= done);
            assert(next.last() == species);
        }
        let mut found: Option<usize> = None;
        let mut g: usize = 0;
        while g < groups.len()
            invariant_except_break
                found.is_none(),
            invariant
                g <= groups@.len(),
                forall|h: int| 0 <= h < g ==> (#[trigger] groups@[h]).0@ != species.name@,
            ensures
                found matches Some(x) ==> x < groups@.len() && groups@[x as int].0@ == species.name@,
                found is None ==> forall|h: int| 0 <= h < groups@.len() ==> (#[trigger] groups@[h]).0@ != species.name@,
            decreases groups@.len() - g,
        {
            if groups[g].0 == species.name {
                found = Some(g);
                break;
            }
            g = g + 1;
        }
        let ghost old_groups = groups@;
        match found {
            Some(idx) => {
                proof {
                    assert(groups@[idx as int].0@ == species.name@);
                }
                groups[idx].1.push(species);
                proof {
                    assert forall|h: int| 0 <= h < groups@.len() implies (#[trigger] groups@[h]).1@ == members_named(
                        next,
                        groups@[h].0@,
                    ) by {
                        assert(members_named(next, groups@[h].0@) == if next.last().name@ == groups@[h].0@ {
                            members_named(done, groups@[h].0@).push(next.last())
                        } else {
                            members_named(done, groups@[h].0@)
                        });
                        if h != idx as int {
                            assert(groups@[h] == old_groups[h]);
                        }
                    }
                    assert forall|j: int| 0 <= j < next.len() implies exists|h: int|
                        0 <= h < groups@.len() && (#[trigger] groups@[h]).0@ == (#[trigger] next[j]).name@ by {
                        if j < i {
                            assert(next[j] == done[j]);
                            let h = choose|h: int| 0 <= h < old_groups.len() && old_groups[h].0@ == done[j].name@;
                            assert(groups@[h].0@ == old_groups[h].0@);
                        } else {
                            assert(groups@[idx as int].0@ == next[j].name@);
                        }
                    }
                    assert forall|g1: int, g2: int| 0 <= g1 < g2 < groups@.len() implies occurs_before(
                        next,
                        (#[trigger] groups@[g1]).0@,
                        (#[trigger] groups@[g2]).0@,
                    ) by {
                        assert(groups@[g1].0@ == old_groups[g1].0@);
                        assert(groups@[g2].0@ == old_groups[g2].0@);
                        assert(occurs_before(done, old_groups[g1].0@, old_groups[g2].0@));
                        let w = choose|w: int|
                            0 <= w < done.len() && #[trigger] done[w].name@ == old_groups[g1].0@ && forall|j: int|
                                0 <= j <= w ==> #[trigger] done[j].name@ != old_groups[g2].0@;
                        assert(next[w] == done[w]);
                        assert forall|j: int| 0 <= j <= w implies #[trigger] next[j].name@ != old_groups[g2].0@ by {
                            assert(next[j] == done[j]);
                        }
                    }
                    assert forall|h: int| 0 <= h < groups@.len() implies (#[trigger] groups@[h]).1@.len() > 0 by {
                        if h != idx as int {
                            assert(groups@[h] == old_groups[h]);
                        }
                    }
                    assert forall|g1: int, g2: int| 0 <= g1 < g2 < groups@.len() implies (#[trigger] groups@[g1]).0@
                        != (#[trigger] groups@[g2]).0@ by {
                        assert(groups@[g1].0@ == old_groups[g1].0@);
                        assert(groups@[g2].0@ == old_groups[g2].0@);
                    }
                }
            },
            None => {
                let name = species.name.clone();
                let ghost sname = species.name@;
                proof {
                    assert forall|j: int| 0 <= j < done.len() implies #[trigger] done[j].name@ != sname by {
                        let h = choose|h: int| 0 <= h < old_groups.len() && old_groups[h].0@ == done[j].name@;
                        assert(old_groups[h].0@ != sname);
                    }
                    lemma_members_absent(done, sname);
                }
                let mut members: Vec<Species> = Vec::new();
                members.push(species);
                groups.push((name, members));
                proof {
                    let last = groups@.len() - 1;
                    assert(members_named(next, sname) =~= seq![next.last()]);
                    assert forall|h: int| 0 <= h < groups@.len() implies (#[trigger] groups@[h]).1@ == members_named(
                        next,
                        groups@[h].0@,
                    ) by {
                        if h < last {
                            assert(groups@[h] == old_groups[h]);
                            assert(old_groups[h].0@ != sname);
                        }
                    }
                    assert forall|j: int| 0 <= j < next.len() implies exists|h: int|
                        0 <= h < groups@.len() && (#[trigger] groups@[h]).0@ == (#[trigger] next[j]).name@ by {
                        if j < i {
                            assert(next[j] == done[j]);
                            let h = choose|h: int| 0 <= h < old_groups.len() && old_groups[h].0@ == done[j].name@;
                            assert(groups@[h] == old_groups[h]);
                        } else {
                            assert(groups@[last].0@ == next[j].name@);
                        }
                    }
                    assert forall|g1: int, g2: int| 0 <= g1 < g2 < groups@.len() implies occurs_before(
                        next,
                        (#[trigger] groups@[g1]).0@,
                        (#[trigger] groups@[g2]).0@,
                    ) by {
                        assert(groups@[g1] == old_groups[g1]);
                        if g2 < last {
                            assert(groups@[g2] == old_groups[g2]);
                            assert(occurs_before(done, old_groups[g1].0@, old_groups[g2].0@));
                            let w = choose|w: int|
                                0 <= w < done.len() && #[trigger] done[w].name@ == old_groups[g1].0@ && forall|j: int|
                                    0 <= j <= w ==> #[trigger] done[j].name@ != old_groups[g2].0@;
                            assert(next[w] == done[w]);
                            assert forall|j: int| 0 <= j <= w implies #[trigger] next[j].name@ != old_groups[g2].0@ by {
                                assert(next[j] == done[j]);
                            }
                        } else {
                            // the first row of group g1 precedes the new name's only row
                            let m = old_groups[g1].1@;
                            assert(m.len() > 0);
                            lemma_members_nonempty(done, old_groups[g1].0@);
                            let w = choose|w: int| 0 <= w < done.len() && #[trigger] done[w].name@ == old_groups[g1].0@;
                            assert(next[w] == done[w]);
                            assert forall|j: int| 0 <= j <= w implies #[trigger] next[j].name@ != sname by {
                                assert(next[j] == done[j]);
                            }
                        }
                    }
                    assert forall|g1: int, g2: int| 0 <= g1 < g2 < groups@.len() implies (#[trigger] groups@[g1]).0@
                        != (#[trigger] groups@[g2]).0@ by {
                        assert(groups@[g1] == old_groups[g1]);
                        if g2 < last {
                            assert(groups@[g2] == old_groups[g2]);
                        }
                    }
                    assert forall|h: int| 0 <= h < groups@.len() implies (#[trigger] groups@[h]).1@.len() > 0 by {
                        if h < last {
                            assert(groups@[h] == old_groups[h]);
                        }
                    }
                }
            },
        }
        i = i + 1;
    }
    proof {
        assert(all.take(all.len() as int) =~= all);
    }
    groups
}

/// A grouping as plain values: each group's name and its rows.
pub open spec fn group_views(groups: Seq<(String, Vec<Species>)>) -> Seq<(Seq<char>, Seq<Species>)> {
    groups.map_values(|g: (String, Vec<Species>)| (g.0@, g.1@))
}

/// `gv` is `rows` grouped by name (the plain-value form of `grouped_by_name`).
pub open spec fn grouping(rows: Seq<Species>, gv: Seq<(Seq<char>, Seq<Species>)>) -> bool {
    &&& forall|g: int| 0 <= g < gv.len() ==> (#[trigger] gv[g]).1 == members_named(rows, gv[g].0)
    &&& forall|g: int| 0 <= g < gv.len() ==> (#[trigger] gv[g]).1.len() > 0
    &&& forall|g1: int, g2: int| 0 <= g1 < g2 < gv.len() ==> (#[trigger] gv[g1]).0 != (#[trigger] gv[g2]).0
    &&& forall|i: int|
        0 <= i < rows.len() ==> exists|g: int| 0 <= g < gv.len() && (#[trigger] gv[g]).0 == (#[trigger] rows[i]).name@
    &&& forall|g1: int, g2: int|
        0 <= g1 < g2 < gv.len() ==> occurs_before(rows, (#[trigger] gv[g1]).0, (#[trigger] gv[g2]).0)
}

/// The groups' rows one group after another.
pub open spec fn flat_rows(gv: Seq<(Seq<char>, Seq<Species>)>) -> Seq<Species>
    decreases gv.len(),
{
    if gv.len() == 0 {
        seq![]
    } else {
        flat_rows(gv.drop_last()) + gv.last().1
    }
}

proof fn lemma_grouping_views(rows: Seq<Species>, groups: Seq<(String, Vec<Species>)>)
    requires
        grouped_by_name(rows, groups),
    ensures
        grouping(rows, group_views(groups)),
{
    let gv = group_views(groups);
    assert forall|g: int| 0 <= g < gv.len() implies #[trigger] gv[g] == (groups[g].0@, groups[g].1@) by {}
    assert forall|i: int| 0 <= i < rows.len() implies exists|g: int|
        0 <= g < gv.len() && (#[trigger] gv[g]).0 == (#[trigger] rows[i]).name@ by {
        let g = choose|g: int| 0 <= g < groups.len() && (#[trigger] groups[g]).0@ == rows[i].name@;
        assert(gv[g].0 == groups[g].0@);
    }
    assert forall|g1: int, g2: int| 0 <= g1 < g2 < gv.len() implies occurs_before(
        rows,
        (#[trigger] gv[g1]).0,
        (#[trigger] gv[g2]).0,
    ) by {
        assert(occurs_before(rows, groups[g1].0@, groups[g2].0@));
    }
}

proof fn lemma_members_have_name(rows: Seq<Species>, name: Seq<char>)
    ensures
        forall|i: int|
            0 <= i < members_named(rows, name).len() ==> (#[trigger] members_named(rows, name)[i]).name@ == name,
    decreases rows.len(),
{
    if rows.len() > 0 {
        lemma_members_have_name(rows.drop_last(), name);
    }
}

proof fn lemma_not_both_before(rows: Seq<Species>, a: Seq<char>, b: Seq<char>)
    ensures
        !(occurs_before(rows, a, b) && occurs_before(rows, b, a)),
{
    if occurs_before(rows, a, b) && occurs_before(rows, b, a) {
        let i = choose|i: int|
            0 <= i < rows.len() && #[trigger] rows[i].name@ == a && forall|j: int|
                0 <= j <= i ==> #[trigger] rows[j].name@ != b;
        let k = choose|k: int|
            0 <= k < rows.len() && #[trigger] rows[k].name@ == b && forall|j: int|
                0 <= j <= k ==> #[trigger] rows[j].name@ != a;
        if i <= k {
            assert(rows[i].name@ != a);
        } else {
            assert(rows[k].name@ != b);
        }
    }
}

/// A name of a group of one grouping is the name of a group of any other
/// grouping of the same rows.
proof fn lemma_name_in_other(
    rows: Seq<Species>,
    g1: Seq<(Seq<char>, Seq<Species>)>,
    g2: Seq<(Seq<char>, Seq<Species>)>,
    k: int,
) -> (h: int)
    requires
        grouping(rows, g1),
        grouping(rows, g2),
        0 <= k < g1.len(),
    ensures
        0 <= h < g2.len(),
        g2[h].0 == g1[k].0,
{
    assert(g1[k].1.len() > 0);
    lemma_members_nonempty(rows, g1[k].0);
    let w = choose|w: int| 0 <= w < rows.len() && #[trigger] rows[w].name@ == g1[k].0;
    assert(rows[w].name@ == g1[k].0);
    choose|h: int| 0 <= h < g2.len() && (#[trigger] g2[h]).0 == rows[w].name@
}

proof fn lemma_names_agree(
    rows: Seq<Species>,
    g1: Seq<(Seq<char>, Seq<Species>)>,
    g2: Seq<(Seq<char>, Seq<Species>)>,
    k: int,
)
    requires
        grouping(rows, g1),
        grouping(rows, g2),
        0 <= k <= g1.len(),
        k <= g2.len(),
    ensures
        forall|j: int| 0 <= j < k ==> #[trigger] g1[j].0 == g2[j].0,
    decreases k,
{
    if k > 0 {
        lemma_names_agree(rows, g1, g2, k - 1);
        let a = g1[k - 1].0;
        let b = g2[k - 1].0;
        if a != b {
            let h = lemma_name_in_other(rows, g1, g2, k - 1);
            if h < k - 1 {
                assert(g1[h].0 == g2[h].0);
                assert(g1[h].0 != g1[k - 1].0);
            }
            assert(occurs_before(rows, g2[k - 1].0, g2[h].0));
            let h2 = lemma_name_in_other(rows, g2, g1, k - 1);
            if h2 < k - 1 {
                assert(g1[h2].0 == g2[h2].0);
                assert(g2[h2].0 != g2[k - 1].0);
            }
            assert(occurs_before(rows, g1[k - 1].0, g1[h2].0));
            lemma_not_both_before(rows, a, b);
        }
    }
}

/// The grouping of a list of rows is determined by the rows: any two
/// groupings of the same rows are equal.
pub proof fn lemma_grouping_unique(
    rows: Seq<Species>,
    g1: Seq<(Seq<char>, Seq<Species>)>,
    g2: Seq<(Seq<char>, Seq<Species>)>,
)
    requires
        grouping(rows, g1),
        grouping(rows, g2),
    ensures
        g1 == g2,
{
    if g1.len() < g2.len() {
        lemma_names_agree(rows, g1, g2, g1.len() as int);
        let h = lemma_name_in_other(rows, g2, g1, g1.len() as int);
        assert(g1[h].0 == g2[h].0);
        assert(g2[h].0 != g2[g1.len() as int].0);
    } else if g2.len() < g1.len() {
        lemma_names_agree(rows, g2, g1, g2.len() as int);
        let h = lemma_name_in_other(rows, g1, g2, g2.len() as int);
        assert(g2[h].0 == g1[h].0);
        assert(g1[h].0 != g1[g2.len() as int].0);
    } else {
        lemma_names_agree(rows, g1, g2, g1.len() as int);
        assert forall|j: int| 0 <= j < g1.len() implies #[trigger] g1[j] == g2[j] by {
            assert(g1[j].0 == g2[j].0);
            assert(g1[j].1 == members_named(rows, g1[j].0));
            assert(g2[j].1 == members_named(rows, g2[j].0));
        }
        assert(g1 =~= g2);
    }
}

proof fn lemma_members_push(rows: Seq<Species>, s: Species, name: Seq<char>)
    ensures
        members_named(rows.push(s), name) == if s.name@ == name {
            members_named(rows, name).push(s)
        } else {
            members_named(rows, name)
        },
{
    assert(rows.push(s).drop_last() =~= rows);
}

proof fn lemma_before_push(rows: Seq<Species>, s: Species, a: Seq<char>, b: Seq<char>)
    requires
        occurs_before(rows, a, b),
    ensures
        occurs_before(rows.push(s), a, b),
{
    let next = rows.push(s);
    let w = choose|w: int|
        0 <= w < rows.len() && #[trigger] rows[w].name@ == a && forall|j: int| 0 <= j <= w ==> #[trigger] rows[j].name@ != b;
    assert(next[w] == rows[w]);
    assert forall|j: int| 0 <= j <= w implies #[trigger] next[j].name@ != b by {
        assert(next[j] == rows[j]);
    }
}

/// One more row whose name already has a group joins the end of that group.
proof fn lemma_step_existing(rows: Seq<Species>, gv: Seq<(Seq<char>, Seq<Species>)>, s: Species, k: int)
    requires
        grouping(rows, gv),
        0 <= k < gv.len(),
        gv[k].0 == s.name@,
    ensures
        grouping(rows.push(s), gv.update(k, (gv[k].0, gv[k].1.push(s)))),
{
    let next = rows.push(s);
    let nv = gv.update(k, (gv[k].0, gv[k].1.push(s)));
    assert forall|h: int| 0 <= h < nv.len() implies (#[trigger] nv[h]).1 == members_named(next, nv[h].0) by {
        lemma_members_push(rows, s, gv[h].0);
        if h != k {
            assert(gv[h].0 != gv[k].0);
        }
    }
    assert forall|j: int| 0 <= j < next.len() implies exists|h: int|
        0 <= h < nv.len() && (#[trigger] nv[h]).0 == (#[trigger] next[j]).name@ by {
        if j < rows.len() {
            assert(next[j] == rows[j]);
            let h = choose|h: int| 0 <= h < gv.len() && (#[trigger] gv[h]).0 == rows[j].name@;
            assert(nv[h].0 == gv[h].0);
        } else {
            assert(nv[k].0 == next[j].name@);
        }
    }
    assert forall|g1: int, g2: int| 0 <= g1 < g2 < nv.len() implies occurs_before(
        next,
        (#[trigger] nv[g1]).0,
        (#[trigger] nv[g2]).0,
    ) by {
        assert(occurs_before(rows, gv[g1].0, gv[g2].0));
        lemma_before_push(rows, s, gv[g1].0, gv[g2].0);
    }
    assert forall|h: int| 0 <= h < nv.len() implies (#[trigger] nv[h]).1.len() > 0 by {
        assert(gv[h].1.len() > 0);
    }
    assert forall|g1: int, g2: int| 0 <= g1 < g2 < nv.len() implies (#[trigger] nv[g1]).0 != (#[trigger] nv[g2]).0 by {
        assert(gv[g1].0 != gv[g2].0);
    }
}

/// One more row with a name no group has starts a new group at the end.
proof fn lemma_step_new(rows: Seq<Species>, gv: Seq<(Seq<char>, Seq<Species>)>, s: Species)
    requires
        grouping(rows, gv),
        forall|k: int| 0 <= k < gv.len() ==> (#[trigger] gv[k]).0 != s.name@,
    ensures
        grouping(rows.push(s), gv.push((s.name@, seq![s]))),
{
    let next = rows.push(s);
    let nv = gv.push((s.name@, seq![s]));
    let last = gv.len() as int;
    assert forall|j: int| 0 <= j < rows.len() implies #[trigger] rows[j].name@ != s.name@ by {
        let h = choose|h: int| 0 <= h < gv.len() && (#[trigger] gv[h]).0 == rows[j].name@;
        assert(gv[h].0 != s.name@);
    }
    lemma_members_absent(rows, s.name@);
    assert forall|h: int| 0 <= h < nv.len() implies (#[trigger] nv[h]).1 == members_named(next, nv[h].0) by {
        lemma_members_push(rows, s, nv[h].0);
        if h < last {
            assert(nv[h] == gv[h]);
            assert(gv[h].0 != s.name@);
        } else {
            assert(members_named(rows, s.name@).push(s) =~= seq![s]);
        }
    }
    assert forall|j: int| 0 <= j < next.len() implies exists|h: int|
        0 <= h < nv.len() && (#[trigger] nv[h]).0 == (#[trigger] next[j]).name@ by {
        if j < rows.len() {
            assert(next[j] == rows[j]);
            let h = choose|h: int| 0 <= h < gv.len() && (#[trigger] gv[h]).0 == rows[j].name@;
            assert(nv[h] == gv[h]);
        } else {
            assert(nv[last].0 == next[j].name@);
        }
    }
    assert forall|g1: int, g2: int| 0 <= g1 < g2 < nv.len() implies occurs_before(
        next,
        (#[trigger] nv[g1]).0,
        (#[trigger] nv[g2]).0,
    ) by {
        assert(nv[g1] == gv[g1]);
        if g2 < last {
            assert(nv[g2] == gv[g2]);
            assert(occurs_before(rows, gv[g1].0, gv[g2].0));
            lemma_before_push(rows, s, gv[g1].0, gv[g2].0);
        } else {
            assert(gv[g1].1.len() > 0);
            lemma_members_nonempty(rows, gv[g1].0);
            let w = choose|w: int| 0 <= w < rows.len() && #[trigger] rows[w].name@ == gv[g1].0;
            assert(next[w] == rows[w]);
            assert forall|j: int| 0 <= j <= w implies #[trigger] next[j].name@ != s.name@ by {
                assert(next[j] == rows[j]);
            }
        }
    }
    assert forall|h: int| 0 <= h < nv.len() implies (#[trigger] nv[h]).1.len() > 0 by {
        if h < last {
            assert(nv[h] == gv[h]);
        }
    }
    assert forall|g1: int, g2: int| 0 <= g1 < g2 < nv.len() implies (#[trigger] nv[g1]).0 != (#[trigger] nv[g2]).0 by {
        assert(nv[g1] == gv[g1]);
        if g2 < last {
            assert(nv[g2] == gv[g2]);
        }
    }
}

/// Grouping one more row changes only the group of its name: the row joins the
/// end of that group, every other group and the order of the groups stay as
/// they were; a row whose name has no group yet adds a one-row group at the end.
pub proof fn lemma_group_one_more_row(
    rows: Seq<Species>,
    s: Species,
    groups: Seq<(String, Vec<Species>)>,
    regrouped: Seq<(String, Vec<Species>)>,
)
    requires
        grouped_by_name(rows, groups),
        grouped_by_name(rows.push(s), regrouped),
    ensures
        forall|k: int|
            0 <= k < groups.len() && #[trigger] group_views(groups)[k].0 == s.name@ ==> group_views(regrouped)
                == group_views(groups).update(k, (group_views(groups)[k].0, group_views(groups)[k].1.push(s))),
        (forall|k: int| 0 <= k < groups.len() ==> #[trigger] group_views(groups)[k].0 != s.name@) ==> group_views(
            regrouped,
        ) == group_views(groups).push((s.name@, seq![s])),
{
    let gv = group_views(groups);
    lemma_grouping_views(rows, groups);
    lemma_grouping_views(rows.push(s), regrouped);
    assert forall|k: int| 0 <= k < groups.len() && #[trigger] gv[k].0 == s.name@ implies group_views(regrouped)
        == gv.update(k, (gv[k].0, gv[k].1.push(s))) by {
        lemma_step_existing(rows, gv, s, k);
        lemma_grouping_unique(rows.push(s), group_views(regrouped), gv.update(k, (gv[k].0, gv[k].1.push(s))));
    }
    if forall|k: int| 0 <= k < groups.len() ==> #[trigger] gv[k].0 != s.name@ {
        lemma_step_new(rows, gv, s);
        lemma_grouping_unique(rows.push(s), group_views(regrouped), gv.push((s.name@, seq![s])));
    }
}

/// Groups with rows, distinct names, and only rows of their own name.
pub open spec fn well_grouped(gv: Seq<(Seq<char>, Seq<Species>)>) -> bool {
    &&& forall|g: int| 0 <= g < gv.len() ==> (#[trigger] gv[g]).1.len() > 0
    &&& forall|g1: int, g2: int| 0 <= g1 < g2 < gv.len() ==> (#[trigger] gv[g1]).0 != (#[trigger] gv[g2]).0
    &&& forall|g: int, i: int| 0 <= g < gv.len() && 0 <= i < gv[g].1.len() ==> (#[trigger] gv[g].1[i]).name@ == gv[g].0
}

proof fn lemma_push_members(p: Seq<(Seq<char>, Seq<Species>)>, n: Seq<char>, m: Seq<Species>, j: int)
    requires
        grouping(flat_rows(p), p),
        forall|k: int| 0 <= k < p.len() ==> (#[trigger] p[k]).0 != n,
        forall|i: int| 0 <= i < m.len() ==> (#[trigger] m[i]).name@ == n,
        1 <= j <= m.len(),
    ensures
        grouping(flat_rows(p) + m.take(j), p.push((n, m.take(j)))),
    decreases j,
{
    if j == 1 {
        lemma_step_new(flat_rows(p), p, m[0]);
        assert(flat_rows(p).push(m[0]) =~= flat_rows(p) + m.take(1));
        assert(seq![m[0]] =~= m.take(1));
    } else {
        lemma_push_members(p, n, m, j - 1);
        let q = p.push((n, m.take(j - 1)));
        assert(q[p.len() as int].0 == m[j - 1].name@);
        lemma_step_existing(flat_rows(p) + m.take(j - 1), q, m[j - 1], p.len() as int);
        assert((flat_rows(p) + m.take(j - 1)).push(m[j - 1]) =~= flat_rows(p) + m.take(j));
        assert(m.take(j - 1).push(m[j - 1]) =~= m.take(j));
        assert(q.update(p.len() as int, (q[p.len() as int].0, q[p.len() as int].1.push(m[j - 1]))) =~= p.push(
            (n, m.take(j)),
        ));
    }
}

proof fn lemma_flat_grouping(gv: Seq<(Seq<char>, Seq<Species>)>)
    requires
        well_grouped(gv),
    ensures
        grouping(flat_rows(gv), gv),
    decreases gv.len(),
{
    if gv.len() > 0 {
        let p = gv.drop_last();
        assert forall|g: int, i: int| 0 <= g < p.len() && 0 <= i < p[g].1.len() implies (#[trigger] p[g].1[i]).name@
            == p[g].0 by {
            assert(p[g] == gv[g]);
        }
        assert forall|g1: int, g2: int| 0 <= g1 < g2 < p.len() implies (#[trigger] p[g1]).0 != (#[trigger] p[g2]).0 by {
            assert(p[g1] == gv[g1]);
            assert(p[g2] == gv[g2]);
        }
        assert forall|g: int| 0 <= g < p.len() implies (#[trigger] p[g]).1.len() > 0 by {
            assert(p[g] == gv[g]);
        }
        lemma_flat_grouping(p);
        let last = gv.last();
        assert forall|k: int| 0 <= k < p.len() implies (#[trigger] p[k]).0 != last.0 by {
            assert(p[k] == gv[k]);
        }
        assert forall|i: int| 0 <= i < last.1.len() implies (#[trigger] last.1[i]).name@ == last.0 by {
            assert(gv[gv.len() - 1].1[i].name@ == gv[gv.len() - 1].0);
        }
        lemma_push_members(p, last.0, last.1, last.1.len() as int);
        assert(last.1.take(last.1.len() as int) =~= last.1);
        assert(p.push((last.0, last.1)) =~= gv);
    }
}

/// Grouping the rows of the groups again, one group after another, gives the
/// same groups.
pub proof fn lemma_regroup_flattened(
    rows: Seq<Species>,
    groups: Seq<(String, Vec<Species>)>,
    regrouped: Seq<(String, Vec<Species>)>,
)
    requires
        grouped_by_name(rows, groups),
        grouped_by_name(flat_rows(group_views(groups)), regrouped),
    ensures
        group_views(regrouped) == group_views(groups),
{
    let gv = group_views(groups);
    lemma_grouping_views(rows, groups);
    assert forall|g: int, i: int| 0 <= g < gv.len() && 0 <= i < gv[g].1.len() implies (#[trigger] gv[g].1[i]).name@
        == gv[g].0 by {
        lemma_members_have_name(rows, gv[g].0);
    }
    lemma_flat_grouping(gv);
    lemma_grouping_views(flat_rows(gv), regrouped);
    lemma_grouping_unique(flat_rows(gv), group_views(regrouped), gv);
}

/// A species row with only its identity set: no ability line, bonuses,
/// size, speed, darkvision or entries; its canonical id is `name|source`.
pub fn species(id: &str, name: &str, source: &str) -> (r: Species)
    ensures
        r.id@ == id@,
        r.name@ == name@,
        r.source@ == source@,
        r.canonical_id@ == name@ + seq!['|'] + source@,
        r.ability is None,
        r.ability_bonuses@.len() == 0,
        r.size is None,
        r.speed is None,
        r.darkvision is None,
        r.entries@.len() == 0,
{
    let mut canonical_id = String::from_str(name);
    crate::text::push_char(&mut canonical_id, '|');
    crate::text::push_str(&mut canonical_id, source);
    Species {
        id: String::from_str(id),
        canonical_id,
        name: String::from_str(name),
        source: String::from_str(source),
        ability: None,
        ability_bonuses: Vec::new(),
        size: None,
        speed: None,
        darkvision: None,
        entries: Vec::new(),
    }
}

/// The text of an optional field, empty when absent.
pub open spec fn opt_text(s: Option<String>) -> Seq<char> {
    match s {
        Some(t) => t@,
        None => seq![],
    }
}

/// The species' ability, size and speed lines, those present and non-empty,
/// joined with `" · "`.
pub open spec fn subtitle_spec(species: Species) -> Seq<char> {
    join(
        nonempty(seq![opt_text(species.ability), opt_text(species.size), opt_text(species.speed)]),
        " · "@,
    )
}

fn opt_clone(s: &Option<String>) -> (r: String)
    ensures
        r@ == opt_text(*s),
{
    match s {
        Some(t) => t.clone(),
        None => String::new(),
    }
}

/// One-line subtitle under a species name.
pub fn species_subtitle(species: &Species) -> (r: String)
    ensures
        r@ == subtitle_spec(*species),
{
    let parts: [String; 3] = [opt_clone(&species.ability), opt_clone(&species.size), opt_clone(&species.speed)];
    let ghost all = seq![parts[0]@, parts[1]@, parts[2]@];
    let mut kept: Vec<String> = Vec::new();
    let mut k: usize = 0;
    while k < 3
        invariant
            k <= 3,
            all == seq![parts@[0]@, parts@[1]@, parts@[2]@],
            views(kept@) == nonempty(all.take(k as int)),
        decreases 3 - k,
    {
        let ghost before = kept@;
        if !parts[k].as_str().is_empty() {
            kept.push(parts[k].clone());
        }
        proof {
            assert(all.take(k + 1).drop_last() =~= all.take(k as int));
            assert(views(kept@) =~= nonempty(all.take(k + 1)));
        }
        k = k + 1;
    }
    proof {
        assert(all.take(3) =~= all);
        assert(all == seq![opt_text(species.ability), opt_text(species.size), opt_text(species.speed)]);
    }
    join_strings(&kept, " · ")
}

} // verus!
