//! Where each proficiency comes from: every skill, language or tool a
//! character has, listed once, with the sources that grant it.
use vstd::prelude::*;
use crate::matching::pool_contains;
use crate::text::views;

verus! {

/// A grant: an item (skill, language or tool) and the source granting it.
pub type Grant = (Seq<char>, Seq<char>);

/// A row: an item and its sources.
pub type SourceRow = (Seq<char>, Seq<Seq<char>>);

/// Every item of `items`, each granted by `source`.
pub open spec fn item_grants(items: Seq<String>, source: Seq<char>) -> Seq<Grant> {
    views(items).map_values(|x: Seq<char>| (x, source))
}

/// Grants of fixed proficiencies: each source's items, source by source.
pub open spec fn fixed_grants(fixed: Seq<(String, Vec<String>)>) -> Seq<Grant>
    decreases fixed.len(),
{
    if fixed.len() == 0 {
        seq![]
    } else {
        fixed_grants(fixed.drop_last()) + item_grants(fixed.last().1@, fixed.last().0@)
    }
}

/// Grants of the first `n` picked slots: a pick is granted by its slot's
/// source; an empty slot grants nothing.
pub open spec fn pick_grants(picks: Seq<Option<String>>, sources: Seq<String>, n: nat) -> Seq<Grant>
    decreases n,
{
    if n == 0 {
        seq![]
    } else {
        pick_grants(picks, sources, (n - 1) as nat) + match picks[n - 1] {
            Some(x) => seq![(x@, sources[n - 1]@)],
            None => seq![],
        }
    }
}

/// Grants of custom proficiencies, each by `"Custom"`.
pub open spec fn custom_grants(custom: Seq<Option<String>>) -> Seq<Grant>
    decreases custom.len(),
{
    if custom.len() == 0 {
        seq![]
    } else {
        custom_grants(custom.drop_last()) + match custom.last() {
            Some(x) => seq![(x@, "Custom"@)],
            None => seq![],
        }
    }
}

/// Every grant, in order: fixed ones, then slot picks (paired with their
/// slots up to the shorter list), then custom ones.
pub open spec fn all_grants(
    fixed: Seq<(String, Vec<String>)>,
    picks: Seq<Option<String>>,
    sources: Seq<String>,
    custom: Seq<Option<String>>,
) -> Seq<Grant> {
    let n = if picks.len() < sources.len() { picks.len() } else { sources.len() };
    fixed_grants(fixed) + pick_grants(picks, sources, n) + custom_grants(custom)
}

/// Position of the first row for `item`, if any.
pub open spec fn row_of(rows: Seq<SourceRow>, item: Seq<char>) -> Option<int>
    decreases rows.len(),
{
    if rows.len() == 0 {
        None
    } else {
        match row_of(rows.drop_last(), item) {
            Some(k) => Some(k),
            None => if rows.last().0 == item {
                Some(rows.len() - 1)
            } else {
                None
            },
        }
    }
}

/// Rows after recording grant `g`: its source joins the item's row unless
/// listed there already; an item without a row gets a new row at the end.
pub open spec fn record(rows: Seq<SourceRow>, g: Grant) -> Seq<SourceRow> {
    match row_of(rows, g.0) {
        Some(k) => if rows[k].1.contains(g.1) {
            rows
        } else {
            rows.update(k, (g.0, rows[k].1.push(g.1)))
        },
        None => rows.push((g.0, seq![g.1])),
    }
}

/// `rows` after recording every grant of `grants`, in order.
pub open spec fn recorded(rows: Seq<SourceRow>, grants: Seq<Grant>) -> Seq<SourceRow>
    decreases grants.len(),
{
    if grants.len() == 0 {
        rows
    } else {
        record(recorded(rows, grants.drop_last()), grants.last())
    }
}

/// The rows listing `grants`.
pub open spec fn rows_of(grants: Seq<Grant>) -> Seq<SourceRow> {
    recorded(seq![], grants)
}

/// Contents of a list of rows.
pub open spec fn row_views(rows: Seq<(String, Vec<String>)>) -> Seq<SourceRow> {
    rows.map_values(|r: (String, Vec<String>)| (r.0@, views(r.1@)))
}

proof fn lemma_row_of(rows: Seq<SourceRow>, item: Seq<char>)
    ensures
        match row_of(rows, item) {
            Some(k) => 0 <= k < rows.len() && rows[k].0 == item && forall|j: int| 0 <= j < k ==> (#[trigger] rows[j]).0 != item,
            None => forall|j: int| 0 <= j < rows.len() ==> (#[trigger] rows[j]).0 != item,
        },
    decreases rows.len(),
{
    if rows.len() > 0 {
        let d = rows.drop_last();
        lemma_row_of(d, item);
        match row_of(d, item) {
            Some(k) => {
                assert(rows[k] == d[k]);
                assert forall|j: int| 0 <= j < k implies (#[trigger] rows[j]).0 != item by {
                    assert(rows[j] == d[j]);
                }
            },
            None => {
                assert forall|j: int| 0 <= j < rows.len() - 1 implies (#[trigger] rows[j]).0 != item by {
                    assert(rows[j] == d[j]);
                }
                if rows.last().0 == item {
                    assert(row_of(rows, item) == Some(rows.len() - 1));
                } else {
                    assert(row_of(rows, item) is None);
                }
            },
        }
    }
}

proof fn lemma_recorded_append(rows: Seq<SourceRow>, a: Seq<Grant>, b: Seq<Grant>)
    ensures
        recorded(rows, a + b) == recorded(recorded(rows, a), b),
    decreases b.len(),
{
    if b.len() == 0 {
        assert(a + b =~= a);
    } else {
        assert((a + b).drop_last() =~= a + b.drop_last());
        assert((a + b).last() == b.last());
        lemma_recorded_append(rows, a, b.drop_last());
    }
}

proof fn lemma_recorded_one(rows: Seq<SourceRow>, a: Seq<Grant>, g: Grant)
    ensures
        recorded(rows, a.push(g)) == record(recorded(rows, a), g),
{
    assert(a.push(g).drop_last() =~= a);
}

/// No item has two rows, and no row lists a source twice.
pub open spec fn rows_wf(rows: Seq<SourceRow>) -> bool {
    &&& forall|a: int, b: int| 0 <= a < b < rows.len() ==> (#[trigger] rows[a]).0 != (#[trigger] rows[b]).0
    &&& forall|k: int, a: int, b: int|
        0 <= k < rows.len() && 0 <= a < b < rows[k].1.len() ==> (#[trigger] rows[k].1[a]) != (#[trigger] rows[k].1[b])
}

/// Some row is for `g`'s item and lists `g`'s source.
pub open spec fn lists(rows: Seq<SourceRow>, g: Grant) -> bool {
    exists|k: int| 0 <= k < rows.len() && rows[k].0 == g.0 && #[trigger] rows[k].1.contains(g.1)
}

/// Every source a row lists grants that row's item.
pub open spec fn only_granted(rows: Seq<SourceRow>, grants: Seq<Grant>) -> bool {
    forall|k: int, s: int| 0 <= k < rows.len() && 0 <= s < rows[k].1.len() ==> grants.contains(
        (rows[k].0, #[trigger] rows[k].1[s]),
    )
}

proof fn lemma_record_keeps(rows: Seq<SourceRow>, grants: Seq<Grant>, g: Grant)
    requires
        rows_wf(rows),
        forall|i: int| 0 <= i < grants.len() ==> #[trigger] lists(rows, grants[i]),
        only_granted(rows, grants),
    ensures
        rows_wf(record(rows, g)),
        forall|i: int| 0 <= i < grants.push(g).len() ==> #[trigger] lists(record(rows, g), grants.push(g)[i]),
        only_granted(record(rows, g), grants.push(g)),
{
    lemma_row_of(rows, g.0);
    let gs = grants.push(g);
    let r2 = record(rows, g);
    assert forall|k: int, s: int| 0 <= k < rows.len() && 0 <= s < rows[k].1.len() implies gs.contains(
        (rows[k].0, #[trigger] rows[k].1[s]),
    ) by {
        let w = choose|w: int| 0 <= w < grants.len() && grants[w] == (rows[k].0, rows[k].1[s]);
        assert(gs[w] == grants[w]);
    }
    assert(gs[grants.len() as int] == g);
    match row_of(rows, g.0) {
        Some(k) => {
            if rows[k].1.contains(g.1) {
                assert forall|i: int| 0 <= i < gs.len() implies #[trigger] lists(r2, gs[i]) by {
                    if i < grants.len() {
                        assert(gs[i] == grants[i]);
                        assert(lists(rows, grants[i]));
                    } else {
                        assert(r2[k].0 == g.0 && r2[k].1.contains(g.1));
                    }
                }
            } else {
                let row = (g.0, rows[k].1.push(g.1));
                assert(r2 == rows.update(k, row));
                assert forall|k2: int, a: int, b: int|
                    0 <= k2 < r2.len() && 0 <= a < b < r2[k2].1.len() implies (#[trigger] r2[k2].1[a]) != (
                    #[trigger] r2[k2].1[b]) by {
                    if k2 == k {
                        if b == rows[k].1.len() {
                            assert(rows[k].1[a] == r2[k].1[a]);
                        } else {
                            assert(rows[k].1[a] == r2[k].1[a]);
                            assert(rows[k].1[b] == r2[k].1[b]);
                        }
                    }
                }
                assert forall|a: int, b: int| 0 <= a < b < r2.len() implies (#[trigger] r2[a]).0 != (#[trigger] r2[b]).0 by {
                    assert(r2[a].0 == rows[a].0);
                    assert(r2[b].0 == rows[b].0);
                }
                assert forall|i: int| 0 <= i < gs.len() implies #[trigger] lists(r2, gs[i]) by {
                    if i < grants.len() {
                        assert(gs[i] == grants[i]);
                        assert(lists(rows, grants[i]));
                        let w = choose|w: int| 0 <= w < rows.len() && rows[w].0 == grants[i].0 && #[trigger] rows[w].1.contains(grants[i].1);
                        if w == k {
                            let p = choose|p: int| 0 <= p < rows[k].1.len() && rows[k].1[p] == grants[i].1;
                            assert(r2[k].1[p] == grants[i].1);
                            assert(r2[w].1.contains(grants[i].1));
                        } else {
                            assert(r2[w] == rows[w]);
                        }
                    } else {
                        assert(r2[k].1[rows[k].1.len() as int] == g.1);
                        assert(r2[k].1.contains(g.1));
                    }
                }
                assert forall|k2: int, s: int| 0 <= k2 < r2.len() && 0 <= s < r2[k2].1.len() implies gs.contains(
                    (r2[k2].0, #[trigger] r2[k2].1[s]),
                ) by {
                    if k2 == k {
                        if s == rows[k].1.len() {
                            assert(gs[grants.len() as int] == (r2[k2].0, r2[k2].1[s]));
                        } else {
                            assert(r2[k2].1[s] == rows[k].1[s]);
                            assert(gs.contains((rows[k].0, rows[k].1[s])));
                        }
                    } else {
                        assert(r2[k2] == rows[k2]);
                        assert(gs.contains((rows[k2].0, rows[k2].1[s])));
                    }
                }
            }
        },
        None => {
            let row = (g.0, seq![g.1]);
            assert(r2 == rows.push(row));
            assert forall|k2: int, a: int, b: int|
                0 <= k2 < r2.len() && 0 <= a < b < r2[k2].1.len() implies (#[trigger] r2[k2].1[a]) != (
                #[trigger] r2[k2].1[b]) by {
                if k2 < rows.len() {
                    assert(r2[k2] == rows[k2]);
                }
            }
            assert forall|a: int, b: int| 0 <= a < b < r2.len() implies (#[trigger] r2[a]).0 != (#[trigger] r2[b]).0 by {
                assert(r2[a] == rows[a]);
                if b < rows.len() {
                    assert(r2[b] == rows[b]);
                }
            }
            assert forall|i: int| 0 <= i < gs.len() implies #[trigger] lists(r2, gs[i]) by {
                if i < grants.len() {
                    assert(gs[i] == grants[i]);
                    assert(lists(rows, grants[i]));
                    let w = choose|w: int| 0 <= w < rows.len() && rows[w].0 == grants[i].0 && #[trigger] rows[w].1.contains(grants[i].1);
                    assert(r2[w] == rows[w]);
                } else {
                    let last = rows.len() as int;
                    assert(r2[last].1[0] == g.1);
                    assert(r2[last].1.contains(g.1));
                }
            }
            assert forall|k2: int, s: int| 0 <= k2 < r2.len() && 0 <= s < r2[k2].1.len() implies gs.contains(
                (r2[k2].0, #[trigger] r2[k2].1[s]),
            ) by {
                if k2 < rows.len() {
                    assert(r2[k2] == rows[k2]);
                    assert(gs.contains((rows[k2].0, rows[k2].1[s])));
                } else {
                    assert(gs[grants.len() as int] == (r2[k2].0, r2[k2].1[s]));
                }
            }
        },
    }
}

/// The rows listing a sequence of grants name every item once, list each of
/// its sources once, list every grant, and list only sources that grant the
/// row's item.
pub proof fn lemma_rows_list_exactly_the_grants(grants: Seq<Grant>)
    ensures
        rows_wf(rows_of(grants)),
        forall|i: int| 0 <= i < grants.len() ==> #[trigger] lists(rows_of(grants), grants[i]),
        only_granted(rows_of(grants), grants),
    decreases grants.len(),
{
    if grants.len() > 0 {
        let d = grants.drop_last();
        lemma_rows_list_exactly_the_grants(d);
        lemma_record_keeps(rows_of(d), d, grants.last());
        assert(d.push(grants.last()) =~= grants);
    }
}

fn find_row(rows: &Vec<(String, Vec<String>)>, item: &String) -> (r: Option<usize>)
    ensures
        match r {
            Some(k) => row_of(row_views(rows@), item@) == Some(k as int),
            None => row_of(row_views(rows@), item@) is None,
        },
{
    let ghost rv = row_views(rows@);
    proof {
        lemma_row_of(rv, item@);
    }
    let mut k: usize = 0;
    while k < rows.len()
        invariant
            k <= rows@.len(),
            rv == row_views(rows@),
            rv.len() == rows@.len(),
            forall|j: int| 0 <= j < k ==> (#[trigger] rv[j]).0 != item@,
            match row_of(rv, item@) {
                Some(m) => 0 <= m < rv.len() && rv[m].0 == item@ && forall|j: int| 0 <= j < m ==> (#[trigger] rv[j]).0 != item@,
                None => forall|j: int| 0 <= j < rv.len() ==> (#[trigger] rv[j]).0 != item@,
            },
        decreases rows@.len() - k,
    {
        if rows[k].0 == *item {
            assert(rv[k as int].0 == item@);
            return Some(k);
        }
        assert(rv[k as int].0 != item@);
        k = k + 1;
    }
    None
}

/// Records that `source` grants `item`.
fn record_grant(rows: &mut Vec<(String, Vec<String>)>, item: &String, source: &String)
    ensures
        row_views(final(rows)@) == record(row_views(old(rows)@), (item@, source@)),
{
    let ghost old_rows = rows@;
    let ghost rv = row_views(rows@);
    match find_row(rows, item) {
        Some(k) => {
            proof {
                lemma_row_of(rv, item@);
            }
            let listed = pool_contains(&rows[k].1, source);
            proof {
                assert(rv[k as int].1 == views(old_rows[k as int].1@));
                if listed {
                    let w = choose|w: int| 0 <= w < old_rows[k as int].1@.len() && #[trigger] old_rows[k as int].1@[w]@ == source@;
                    assert(rv[k as int].1[w] == source@);
                } else {
                    assert forall|w: int| 0 <= w < rv[k as int].1.len() implies rv[k as int].1[w] != source@ by {
                        assert(rv[k as int].1[w] == old_rows[k as int].1@[w]@);
                    }
                }
            }
            if !listed {
                let (name, mut srcs) = rows.remove(k);
                srcs.push(source.clone());
                rows.insert(k, (name, srcs));
                proof {
                    assert(views(srcs@) =~= views(old_rows[k as int].1@).push(source@));
                    assert(row_views(rows@) =~= rv.update(k as int, (item@, rv[k as int].1.push(source@))));
                }
            }
        },
        None => {
            let mut srcs: Vec<String> = Vec::new();
            srcs.push(source.clone());
            rows.push((item.clone(), srcs));
            proof {
                assert(views(srcs@) =~= seq![source@]);
                assert(row_views(rows@) =~= rv.push((item@, seq![source@])));
            }
        },
    }
}

/// Records that `source` grants each of `items`, in order.
fn record_items(rows: &mut Vec<(String, Vec<String>)>, items: &Vec<String>, source: &String)
    ensures
        row_views(final(rows)@) == recorded(row_views(old(rows)@), item_grants(items@, source@)),
{
    let ghost start = row_views(rows@);
    let mut j: usize = 0;
    while j < items.len()
        invariant
            j <= items@.len(),
            row_views(rows@) == recorded(start, item_grants(items@.take(j as int), source@)),
        decreases items@.len() - j,
    {
        proof {
            assert(item_grants(items@.take(j + 1), source@) =~= item_grants(items@.take(j as int), source@).push(
                (items@[j as int]@, source@),
            ));
            lemma_recorded_one(start, item_grants(items@.take(j as int), source@), (items@[j as int]@, source@));
        }
        record_grant(rows, &items[j], source);
        j = j + 1;
    }
    proof {
        assert(items@.take(items@.len() as int) =~= items@);
    }
}

/// Every proficiency with the sources that grant it, one row per item in
/// order of first grant: fixed grants (`fixed`: each source with its items),
/// then each slot pick with its slot's source, then custom picks from
/// `"Custom"`. A source is listed once per item.
pub fn proficiency_sources(
    fixed: &[(String, Vec<String>)],
    picks: &[Option<String>],
    pool_sources: &[String],
    custom: &[Option<String>],
) -> (r: Vec<(String, Vec<String>)>)
    ensures
        row_views(r@) == rows_of(all_grants(fixed@, picks@, pool_sources@, custom@)),
{
    let mut rows: Vec<(String, Vec<String>)> = Vec::new();
    assert(row_views(rows@) =~= Seq::<SourceRow>::empty());
    let mut i: usize = 0;
    while i < fixed.len()
        invariant
            i <= fixed@.len(),
            row_views(rows@) == rows_of(fixed_grants(fixed@.take(i as int))),
        decreases fixed@.len() - i,
    {
        proof {
            assert(fixed@.take(i + 1).drop_last() =~= fixed@.take(i as int));
            lemma_recorded_append(
                seq![],
                fixed_grants(fixed@.take(i as int)),
                item_grants(fixed@[i as int].1@, fixed@[i as int].0@),
            );
        }
        record_items(&mut rows, &fixed[i].1, &fixed[i].0);
        i = i + 1;
    }
    proof {
        assert(fixed@.take(fixed@.len() as int) =~= fixed@);
    }
    let ghost base = fixed_grants(fixed@);
    let n = if picks.len() < pool_sources.len() { picks.len() } else { pool_sources.len() };
    let mut k: usize = 0;
    while k < n
        invariant
            k <= n,
            n <= picks@.len(),
            n <= pool_sources@.len(),
            base == fixed_grants(fixed@),
            row_views(rows@) == rows_of(base + pick_grants(picks@, pool_sources@, k as nat)),
        decreases n - k,
    {
        match &picks[k] {
            Some(x) => {
                proof {
                    assert(pick_grants(picks@, pool_sources@, (k + 1) as nat) =~= pick_grants(
                        picks@,
                        pool_sources@,
                        k as nat,
                    ).push((x@, pool_sources@[k as int]@)));
                    assert(base + pick_grants(picks@, pool_sources@, (k + 1) as nat) =~= (base + pick_grants(
                        picks@,
                        pool_sources@,
                        k as nat,
                    )).push((x@, pool_sources@[k as int]@)));
                    lemma_recorded_one(
                        seq![],
                        base + pick_grants(picks@, pool_sources@, k as nat),
                        (x@, pool_sources@[k as int]@),
                    );
                }
                record_grant(&mut rows, x, &pool_sources[k]);
            },
            None => {
                proof {
                    assert(pick_grants(picks@, pool_sources@, (k + 1) as nat) =~= pick_grants(
                        picks@,
                        pool_sources@,
                        k as nat,
                    ));
                }
            },
        }
        k = k + 1;
    }
    let ghost mid = base + pick_grants(picks@, pool_sources@, n as nat);
    let custom_source = String::from_str("Custom");
    let mut c: usize = 0;
    while c < custom.len()
        invariant
            c <= custom@.len(),
            custom_source@ == "Custom"@,
            row_views(rows@) == rows_of(mid + custom_grants(custom@.take(c as int))),
        decreases custom@.len() - c,
    {
        proof {
            assert(custom@.take(c + 1).drop_last() =~= custom@.take(c as int));
        }
        match &custom[c] {
            Some(x) => {
                proof {
                    assert(custom_grants(custom@.take(c + 1)) =~= custom_grants(custom@.take(c as int)).push(
                        (x@, "Custom"@),
                    ));
                    assert(mid + custom_grants(custom@.take(c + 1)) =~= (mid + custom_grants(custom@.take(c as int))).push(
                        (x@, "Custom"@),
                    ));
                    lemma_recorded_one(seq![], mid + custom_grants(custom@.take(c as int)), (x@, "Custom"@));
                }
                record_grant(&mut rows, x, &custom_source);
            },
            None => {
                proof {
                    assert(custom_grants(custom@.take(c + 1)) =~= custom_grants(custom@.take(c as int)));
                }
            },
        }
        c = c + 1;
    }
    proof {
        assert(custom@.take(custom@.len() as int) =~= custom@);
    }
    rows
}

} // verus!
