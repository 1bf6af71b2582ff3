//! Attribution of shared spell/cantrip picks to the classes whose own pool and
//! budget they satisfy (bipartite matching by augmenting paths).
use vstd::prelude::*;
use crate::counting::{
    count_idx, lemma_count_ext, lemma_count_mono, lemma_count_point, lemma_sum_add, lemma_sum_mono, lemma_sum_single,
    sum_idx,
};

verus! {

// ---------------------------------------------------------------------------
// Model
// ---------------------------------------------------------------------------

/// `pool` lists `s` (string contents compared, as `==` on `String` does).
pub open spec fn pool_has(pool: Seq<String>, s: String) -> bool {
    exists|k: int| 0 <= k < pool.len() && #[trigger] pool[k]@ == s@
}

/// Pick `i` may be spent from pool `p`.
pub open spec fn eligible(chosen: Seq<String>, pools: Seq<Vec<String>>, i: int, p: int) -> bool {
    0 <= p < pools.len() && pool_has(pools[p]@, chosen[i])
}

/// Indicator of the picks attributed to pool `p` by `a`.
pub open spec fn owned_by(a: Seq<int>, p: int) -> spec_fn(int) -> bool {
    |y: int| a[y] == p
}

/// Number of picks that `a` attributes to pool `p`.
pub open spec fn count_owned(a: Seq<int>, p: int) -> nat {
    count_idx(a.len() as int, owned_by(a, p))
}

/// `a` attributes every pick to a pool that lists it, and no pool `p` receives
/// more than `required[p]` picks.
pub open spec fn valid_attribution(
    chosen: Seq<String>,
    pools: Seq<Vec<String>>,
    required: Seq<usize>,
    a: Seq<int>,
) -> bool {
    &&& a.len() == chosen.len()
    &&& forall|i: int| 0 <= i < a.len() ==> #[trigger] eligible(chosen, pools, i, a[i])
    &&& forall|p: int| 0 <= p < pools.len() ==> #[trigger] count_owned(a, p) <= required[p]
}

/// Some attribution of all picks respects every pool and budget.
pub open spec fn attribution_exists(chosen: Seq<String>, pools: Seq<Vec<String>>, required: Seq<usize>) -> bool {
    exists|a: Seq<int>| valid_attribution(chosen, pools, required, a)
}

/// Budget of pool `p`, as a summand.
pub open spec fn budget(required: Seq<usize>) -> spec_fn(int) -> int {
    |p: int| required[p] as int
}

/// Sum of all budgets.
pub open spec fn total_required(required: Seq<usize>) -> int {
    sum_idx(required.len() as int, budget(required))
}

// ---------------------------------------------------------------------------
// Counting facts behind the completeness argument
// ---------------------------------------------------------------------------

/// Indicator of the picks that `a` attributes to some pool marked in `v`.
pub open spec fn owned_in(a: Seq<int>, v: Seq<bool>) -> spec_fn(int) -> bool {
    |y: int| 0 <= a[y] < v.len() && v[a[y]]
}

/// Per-pool counts restricted to the marked pools, as a summand.
pub open spec fn marked_counts(a: Seq<int>, v: Seq<bool>, m: int) -> spec_fn(int) -> int {
    |p: int| if v[p] { count_idx(m, owned_by(a, p)) as int } else { 0int }
}

/// Budgets restricted to the marked pools, as a summand.
pub open spec fn marked_budgets(required: Seq<usize>, v: Seq<bool>) -> spec_fn(int) -> int {
    |p: int| if v[p] { required[p] as int } else { 0int }
}

/// Counting the picks that land in marked pools equals summing the marked
/// pools' own counts.
proof fn lemma_owned_in_split(a: Seq<int>, v: Seq<bool>, m: int)
    requires
        0 <= m <= a.len(),
    ensures
        count_idx(m, owned_in(a, v)) == sum_idx(v.len() as int, marked_counts(a, v, m)),
    decreases m,
{
    let n = v.len() as int;
    if m == 0 {
        lemma_sum_single(n, marked_counts(a, v, 0), -1);
    } else {
        lemma_owned_in_split(a, v, m - 1);
        let x = a[m - 1];
        let ind = |p: int| if v[p] && x == p { 1int } else { 0int };
        assert forall|p: int| 0 <= p < n implies #[trigger] marked_counts(a, v, m)(p) == marked_counts(a, v, m - 1)(p)
            + ind(p) by {
        }
        lemma_sum_add(n, marked_counts(a, v, m - 1), ind, marked_counts(a, v, m));
        lemma_sum_single(n, ind, x);
    }
}

/// Hall's condition fails: a set of picks (those attributed by `owner` to the
/// marked pools, plus `x`) can only go to marked pools, and the marked pools
/// are already filled to their budgets by all of them but `x`. Then no valid
/// attribution of all picks exists.
proof fn lemma_no_attribution(
    chosen: Seq<String>,
    pools: Seq<Vec<String>>,
    required: Seq<usize>,
    owner: Seq<int>,
    v: Seq<bool>,
    x: int,
)
    requires
        owner.len() == chosen.len(),
        v.len() == pools.len(),
        required.len() >= pools.len(),
        0 <= x < chosen.len(),
        owner[x] == -1,
        forall|p: int| 0 <= p < v.len() && #[trigger] v[p] ==> count_owned(owner, p) >= required[p],
        forall|q: int| #[trigger] eligible(chosen, pools, x, q) ==> v[q],
        forall|y: int, q: int|
            0 <= y < owner.len() && owned_in(owner, v)(y) && #[trigger] eligible(chosen, pools, y, q) ==> v[q],
    ensures
        !attribution_exists(chosen, pools, required),
{
    if exists|a: Seq<int>| valid_attribution(chosen, pools, required, a) {
        let a = choose|a: Seq<int>| valid_attribution(chosen, pools, required, a);
        let m = chosen.len() as int;
        let n = pools.len() as int;
        let t = |y: int| owned_in(owner, v)(y) || y == x;
        // every member of the Hall set goes to a marked pool under `a`
        assert forall|y: int| 0 <= y < m && #[trigger] t(y) implies owned_in(a, v)(y) by {
            assert(eligible(chosen, pools, y, a[y]));
        }
        lemma_count_mono(m, t, owned_in(a, v));
        // the Hall set is one larger than the owned part
        assert forall|y: int| 0 <= y < m && y != x implies #[trigger] owned_in(owner, v)(y) == t(y) by {}
        lemma_count_point(m, owned_in(owner, v), t, x);
        // decompose both counts by pool
        lemma_owned_in_split(a, v, m);
        lemma_owned_in_split(owner, v, m);
        assert forall|p: int| 0 <= p < n implies #[trigger] marked_counts(a, v, m)(p) <= marked_budgets(required, v)(p) by {
            if v[p] {
                assert(count_owned(a, p) <= required[p]);
            }
        }
        assert forall|p: int| 0 <= p < n implies #[trigger] marked_budgets(required, v)(p) <= marked_counts(owner, v, m)(p) by {
            if v[p] {
                assert(count_owned(owner, p) >= required[p]);
            }
        }
        lemma_sum_mono(n, marked_counts(a, v, m), marked_budgets(required, v));
        lemma_sum_mono(n, marked_budgets(required, v), marked_counts(owner, v, m));
        assert(false);
    }
}

proof fn lemma_count_all(n: int, f: spec_fn(int) -> bool)
    requires
        n >= 0,
        forall|y: int| 0 <= y < n ==> #[trigger] f(y),
    ensures
        count_idx(n, f) == n,
    decreases n,
{
    if n > 0 {
        lemma_count_all(n - 1, f);
    }
}

proof fn lemma_sum_tight(n: int, g: spec_fn(int) -> int, h: spec_fn(int) -> int, p: int)
    requires
        forall|q: int| 0 <= q < n ==> #[trigger] g(q) <= h(q),
        sum_idx(n, g) == sum_idx(n, h),
        0 <= p < n,
    ensures
        g(p) == h(p),
    decreases n,
{
    lemma_sum_mono(n - 1, g, h);
    if p < n - 1 {
        lemma_sum_tight(n - 1, g, h, p);
    }
}

/// With as many picks as the budgets add up to, a valid attribution fills
/// every pool exactly to its budget.
pub proof fn lemma_attribution_fills_budgets(
    chosen: Seq<String>,
    pools: Seq<Vec<String>>,
    required: Seq<usize>,
    a: Seq<int>,
    p: int,
)
    requires
        required.len() == pools.len(),
        valid_attribution(chosen, pools, required, a),
        chosen.len() == total_required(required),
        0 <= p < pools.len(),
    ensures
        count_owned(a, p) == required[p],
{
    let n = pools.len() as int;
    let m = a.len() as int;
    let v = Seq::new(n as nat, |q: int| true);
    assert forall|y: int| 0 <= y < m implies #[trigger] owned_in(a, v)(y) by {
        assert(eligible(chosen, pools, y, a[y]));
    }
    lemma_count_all(m, owned_in(a, v));
    lemma_owned_in_split(a, v, m);
    assert forall|q: int| 0 <= q < n implies #[trigger] marked_counts(a, v, m)(q) <= budget(required)(q) by {
        assert(count_owned(a, q) <= required[q]);
    }
    lemma_sum_tight(n, marked_counts(a, v, m), budget(required), p);
}

/// `s` with entries `i` and `j` exchanged.
pub open spec fn swapped<A>(s: Seq<A>, i: int, j: int) -> Seq<A> {
    s.update(i, s[j]).update(j, s[i])
}

proof fn lemma_swap_counts(a: Seq<int>, i: int, j: int, p: int)
    requires
        0 <= i < a.len(),
        0 <= j < a.len(),
    ensures
        count_owned(swapped(a, i, j), p) == count_owned(a, p),
{
    let a1 = a.update(i, a[j]);
    let a2 = swapped(a, i, j);
    let n = a.len() as int;
    assert forall|y: int| 0 <= y < n && y != i implies #[trigger] owned_by(a, p)(y) == owned_by(a1, p)(y) by {}
    lemma_count_point(n, owned_by(a, p), owned_by(a1, p), i);
    assert forall|y: int| 0 <= y < n && y != j implies #[trigger] owned_by(a1, p)(y) == owned_by(a2, p)(y) by {}
    lemma_count_point(n, owned_by(a1, p), owned_by(a2, p), j);
}

proof fn lemma_swap_attribution(
    chosen: Seq<String>,
    pools: Seq<Vec<String>>,
    required: Seq<usize>,
    a: Seq<int>,
    i: int,
    j: int,
)
    requires
        0 <= i < chosen.len(),
        0 <= j < chosen.len(),
        valid_attribution(chosen, pools, required, a),
    ensures
        valid_attribution(swapped(chosen, i, j), pools, required, swapped(a, i, j)),
{
    let c2 = swapped(chosen, i, j);
    let a2 = swapped(a, i, j);
    assert forall|y: int| 0 <= y < a2.len() implies #[trigger] eligible(c2, pools, y, a2[y]) by {
        if y == j {
            assert(eligible(chosen, pools, i, a[i]));
        } else if y == i {
            assert(eligible(chosen, pools, j, a[j]));
        } else {
            assert(eligible(chosen, pools, y, a[y]));
        }
    }
    assert forall|p: int| 0 <= p < pools.len() implies #[trigger] count_owned(a2, p) <= required[p] by {
        lemma_swap_counts(a, i, j, p);
        assert(count_owned(a, p) <= required[p]);
    }
}

/// The order in which picks are submitted doesn't matter: exchanging any two
/// picks leaves the answer unchanged.
pub proof fn lemma_attribution_order_independent(
    chosen: Seq<String>,
    pools: Seq<Vec<String>>,
    required: Seq<usize>,
    i: int,
    j: int,
)
    requires
        0 <= i < chosen.len(),
        0 <= j < chosen.len(),
    ensures
        attribution_exists(swapped(chosen, i, j), pools, required) == attribution_exists(chosen, pools, required),
{
    let c2 = swapped(chosen, i, j);
    if attribution_exists(chosen, pools, required) {
        let a = choose|a: Seq<int>| valid_attribution(chosen, pools, required, a);
        lemma_swap_attribution(chosen, pools, required, a, i, j);
        assert(valid_attribution(c2, pools, required, swapped(a, i, j)));
    }
    if attribution_exists(c2, pools, required) {
        let a = choose|a: Seq<int>| valid_attribution(c2, pools, required, a);
        lemma_swap_attribution(c2, pools, required, a, i, j);
        assert(swapped(c2, i, j) =~= chosen);
        assert(valid_attribution(chosen, pools, required, swapped(a, i, j)));
    }
}

// ---------------------------------------------------------------------------
// State of the search
// ---------------------------------------------------------------------------

/// Pool `p`'s list is exactly the picks `owner` attributes to it, without
/// repeats, all eligible, within budget.
pub open spec fn pool_consistent(
    chosen: Seq<String>,
    pools: Seq<Vec<String>>,
    required: Seq<usize>,
    pool_items: Seq<Vec<usize>>,
    owner: Seq<int>,
    p: int,
) -> bool {
    let list = pool_items[p]@;
    &&& forall|k: int| 0 <= k < list.len() ==> #[trigger] list[k] < chosen.len() && owner[list[k] as int] == p
    &&& forall|k1: int, k2: int| 0 <= k1 < k2 < list.len() ==> #[trigger] list[k1] != #[trigger] list[k2]
    &&& forall|y: int| 0 <= y < owner.len() && owner[y] == p ==> #[trigger] list.contains(y as usize)
    &&& count_owned(owner, p) == list.len()
    &&& list.len() <= required[p]
}

/// Shape facts that hold throughout the search.
pub open spec fn owner_wf(chosen: Seq<String>, pools: Seq<Vec<String>>, owner: Seq<int>) -> bool {
    &&& owner.len() == chosen.len()
    &&& forall|y: int| 0 <= y < owner.len() ==> -1 <= #[trigger] owner[y] < pools.len()
    &&& forall|y: int| 0 <= y < owner.len() && owner[y] >= 0 ==> #[trigger] eligible(chosen, pools, y, owner[y])
}

/// `owner[y]` is a pool not marked in `visited`.
pub open spec fn owned_unvisited(owner: Seq<int>, visited: Seq<bool>, y: int) -> bool {
    0 <= owner[y] < visited.len() && !visited[owner[y]]
}

/// Indicator of the pools not yet visited.
pub open spec fn unvisited(visited: Seq<bool>) -> spec_fn(int) -> bool {
    |p: int| !visited[p]
}

/// `v2` marks at least what `v1` marks.
pub open spec fn grows(v1: Seq<bool>, v2: Seq<bool>) -> bool {
    v1.len() == v2.len() && forall|p: int| 0 <= p < v1.len() && #[trigger] v1[p] ==> v2[p]
}

/// Lists a pool `p` marked in `v_new` but not in `v_old` as settled: full,
/// and every pick it holds has all of its eligible pools marked in `v_new`.
pub open spec fn settled(
    chosen: Seq<String>,
    pools: Seq<Vec<String>>,
    required: Seq<usize>,
    owner: Seq<int>,
    v_old: Seq<bool>,
    v_new: Seq<bool>,
) -> bool {
    &&& forall|p: int| 0 <= p < v_new.len() && #[trigger] v_new[p] && !v_old[p] ==> count_owned(owner, p) >= required[p]
    &&& forall|y: int, q: int|
        0 <= y < owner.len() && 0 <= owner[y] < v_new.len() && v_new[owner[y]] && !v_old[owner[y]]
            && #[trigger] eligible(chosen, pools, y, q) ==> v_new[q]
}

/// Marking an unvisited pool leaves fewer pools unvisited.
pub proof fn lemma_unvisited_shrinks(v1: Seq<bool>, v2: Seq<bool>, i: int)
    requires
        grows(v1, v2),
        0 <= i < v1.len(),
        !v1[i],
        v2[i],
    ensures
        count_idx(v2.len() as int, unvisited(v2)) < count_idx(v1.len() as int, unvisited(v1)),
{
    let n = v1.len() as int;
    let mid = |p: int| !v1[p] && p != i;
    lemma_count_mono(n, unvisited(v2), mid);
    assert forall|y: int| 0 <= y < n && y != i implies #[trigger] mid(y) == unvisited(v1)(y) by {}
    lemma_count_point(n, unvisited(v1), mid, i);
}

/// Pool `p` lists `x`.
proof fn lemma_list_has(list: Seq<usize>, x: usize) -> (k: int)
    requires
        list.contains(x),
    ensures
        0 <= k < list.len(),
        list[k] == x,
{
    choose|k: int| 0 <= k < list.len() && list[k] == x
}

/// Moving pick `x` to pool `j` changes the per-pool counts only at its old and new pool.
proof fn lemma_count_move(owner: Seq<int>, x: int, j: int, p: int)
    requires
        0 <= x < owner.len(),
    ensures
        count_owned(owner.update(x, j), p) + (if owner[x] == p { 1int } else { 0int }) == count_owned(owner, p) + (
        if j == p { 1int } else { 0int }),
{
    let o2 = owner.update(x, j);
    assert forall|y: int| 0 <= y < owner.len() && y != x implies #[trigger] owned_by(owner, p)(y) == owned_by(o2, p)(y) by {}
    lemma_count_point(owner.len() as int, owned_by(owner, p), owned_by(o2, p), x);
}

/// `perm` rearranges the positions `0..n`, and `inv` puts them back.
pub open spec fn rearranges(perm: Seq<int>, inv: Seq<int>, n: int) -> bool {
    &&& perm.len() == n
    &&& inv.len() == n
    &&& forall|i: int| 0 <= i < n ==> 0 <= #[trigger] perm[i] < n && inv[perm[i]] == i
    &&& forall|x: int| 0 <= x < n ==> 0 <= #[trigger] inv[x] < n && perm[inv[x]] == x
}

/// `a` read through `perm`: entry `i` is `a[perm[i]]`.
pub open spec fn reordered(a: Seq<int>, perm: Seq<int>) -> Seq<int> {
    Seq::new(perm.len(), |i: int| a[perm[i]])
}

proof fn lemma_count_last(s: Seq<int>, p: int)
    requires
        s.len() > 0,
    ensures
        count_owned(s, p) == count_owned(s.drop_last(), p) + (if s.last() == p { 1int } else { 0int }),
{
    let n = s.len() as int;
    lemma_count_ext(n - 1, owned_by(s, p), owned_by(s.drop_last(), p));
}

/// Rearranging the picks keeps every pool's count.
proof fn lemma_count_reordered(a: Seq<int>, perm: Seq<int>, inv: Seq<int>, p: int)
    requires
        rearranges(perm, inv, a.len() as int),
    ensures
        count_owned(reordered(a, perm), p) == count_owned(a, p),
    decreases a.len(),
{
    let n = a.len() as int;
    if n > 0 {
        let b = reordered(a, perm);
        let j = inv[n - 1];
        let b2 = swapped(b, j, n - 1);
        lemma_swap_counts(b, j, n - 1, p);
        let last = perm[n - 1];
        let perm2 = Seq::new((n - 1) as nat, |i: int| if i == j { last } else { perm[i] });
        let inv2 = Seq::new((n - 1) as nat, |x: int| if x == last { j } else { inv[x] });
        assert(perm[j] == n - 1);
        assert forall|i: int| 0 <= i < n - 1 implies 0 <= #[trigger] perm2[i] < n - 1 && inv2[perm2[i]] == i by {
            if i == j {
                if last == n - 1 {
                    assert(inv[perm[n - 1]] == n - 1);
                }
            } else {
                assert(inv[perm[i]] == i);
                if perm[i] == n - 1 {
                    assert(inv[n - 1] == i);
                }
                if perm[i] == last {
                    assert(inv[perm[n - 1]] == n - 1);
                }
            }
        }
        assert forall|x: int| 0 <= x < n - 1 implies 0 <= #[trigger] inv2[x] < n - 1 && perm2[inv2[x]] == x by {
            if x == last {
                if j == n - 1 {
                    assert(perm[n - 1] == n - 1);
                }
            } else {
                assert(perm[inv[x]] == x);
                if inv[x] == n - 1 {
                    assert(x == last);
                }
                if inv[x] == j {
                    assert(x == n - 1);
                }
            }
        }
        assert(rearranges(perm2, inv2, n - 1));
        let ad = a.drop_last();
        assert(b2.drop_last() =~= reordered(ad, perm2)) by {
            assert forall|i: int| 0 <= i < n - 1 implies #[trigger] b2.drop_last()[i] == reordered(ad, perm2)[i] by {
                assert(0 <= perm2[i] < n - 1);
            }
        }
        lemma_count_reordered(ad, perm2, inv2, p);
        lemma_count_last(b2, p);
        lemma_count_last(a, p);
        assert(b2.last() == a.last());
    }
}

proof fn lemma_reordered_attribution(
    chosen: Seq<String>,
    chosen2: Seq<String>,
    pools: Seq<Vec<String>>,
    required: Seq<usize>,
    a: Seq<int>,
    perm: Seq<int>,
    inv: Seq<int>,
)
    requires
        chosen2.len() == chosen.len(),
        rearranges(perm, inv, chosen.len() as int),
        forall|i: int| 0 <= i < chosen.len() ==> (#[trigger] chosen2[i])@ == chosen[perm[i]]@,
        valid_attribution(chosen, pools, required, a),
    ensures
        valid_attribution(chosen2, pools, required, reordered(a, perm)),
{
    let a2 = reordered(a, perm);
    assert forall|i: int| 0 <= i < a2.len() implies #[trigger] eligible(chosen2, pools, i, a2[i]) by {
        assert(chosen2[i]@ == chosen[perm[i]]@);
        assert(eligible(chosen, pools, perm[i], a[perm[i]]));
    }
    assert forall|p: int| 0 <= p < pools.len() implies #[trigger] count_owned(a2, p) <= required[p] by {
        lemma_count_reordered(a, perm, inv, p);
        assert(count_owned(a, p) <= required[p]);
    }
}

/// The order in which picks are submitted never matters: any rearrangement
/// of the picks (`chosen2[i]` is `chosen[perm[i]]`) gets the same answer.
pub proof fn lemma_attribution_any_order(
    chosen: Seq<String>,
    chosen2: Seq<String>,
    pools: Seq<Vec<String>>,
    required: Seq<usize>,
    perm: Seq<int>,
    inv: Seq<int>,
)
    requires
        chosen2.len() == chosen.len(),
        rearranges(perm, inv, chosen.len() as int),
        forall|i: int| 0 <= i < chosen.len() ==> (#[trigger] chosen2[i])@ == chosen[perm[i]]@,
    ensures
        attribution_exists(chosen2, pools, required) == attribution_exists(chosen, pools, required),
{
    let n = chosen.len() as int;
    if attribution_exists(chosen, pools, required) {
        let a = choose|a: Seq<int>| valid_attribution(chosen, pools, required, a);
        lemma_reordered_attribution(chosen, chosen2, pools, required, a, perm, inv);
    }
    if attribution_exists(chosen2, pools, required) {
        let a = choose|a: Seq<int>| valid_attribution(chosen2, pools, required, a);
        assert(rearranges(inv, perm, n));
        assert forall|x: int| 0 <= x < n implies (#[trigger] chosen[x])@ == chosen2[inv[x]]@ by {
            assert(chosen2[inv[x]]@ == chosen[perm[inv[x]]]@);
        }
        lemma_reordered_attribution(chosen2, chosen, pools, required, a, inv, perm);
    }
}

/// Enlarging pools never turns an accepted set of picks into a refused one:
/// an attribution into the smaller pools is one into the larger pools.
pub proof fn lemma_attribution_larger_pools(
    chosen: Seq<String>,
    pools: Seq<Vec<String>>,
    pools2: Seq<Vec<String>>,
    required: Seq<usize>,
)
    requires
        pools2.len() == pools.len(),
        forall|p: int, k: int|
            0 <= p < pools.len() && 0 <= k < pools[p]@.len() ==> pool_has(pools2[p]@, #[trigger] pools[p]@[k]),
        attribution_exists(chosen, pools, required),
    ensures
        attribution_exists(chosen, pools2, required),
{
    let a = choose|a: Seq<int>| valid_attribution(chosen, pools, required, a);
    assert forall|i: int| 0 <= i < a.len() implies #[trigger] eligible(chosen, pools2, i, a[i]) by {
        assert(eligible(chosen, pools, i, a[i]));
        let k = choose|k: int| 0 <= k < pools[a[i]]@.len() && #[trigger] pools[a[i]]@[k]@ == chosen[i]@;
        assert(pool_has(pools2[a[i]]@, pools[a[i]]@[k]));
    }
    assert(valid_attribution(chosen, pools2, required, a));
}

// ---------------------------------------------------------------------------
// Search
// ---------------------------------------------------------------------------

/// `pool` lists `s`.
pub fn pool_contains(pool: &Vec<String>, s: &String) -> (r: bool)
    ensures
        r == pool_has(pool@, *s),
{
    let mut j: usize = 0;
    while j < pool.len()
        invariant
            j <= pool@.len(),
            forall|k: int| 0 <= k < j ==> pool@[k]@ != s@,
        decreases pool@.len() - j,
    {
        if pool[j] == *s {
            assert(pool@[j as int]@ == s@);
            return true;
        }
        j = j + 1;
    }
    false
}

// ---------------------------------------------------------------------------
// The augmenting search as a function of its state
// ---------------------------------------------------------------------------

/// Each pool's list of picks as plain sequences.
pub open spec fn list_views(lists: Seq<Vec<usize>>) -> Seq<Seq<usize>> {
    lists.map_values(|l: Vec<usize>| l@)
}

/// How many pools are not yet visited.
pub open spec fn open_pools(visited: Seq<bool>) -> nat {
    count_idx(visited.len() as int, unvisited(visited))
}

/// The augmenting search for pick `item` from the state `(lists, visited)`:
/// whether the pick was placed, the pools' lists and the visited marks
/// afterwards. Pools are tried in index order from the first.
pub open spec fn augment(
    chosen: Seq<String>,
    pools: Seq<Vec<String>>,
    required: Seq<usize>,
    item: int,
    lists: Seq<Seq<usize>>,
    visited: Seq<bool>,
) -> (bool, Seq<Seq<usize>>, Seq<bool>)
    decreases open_pools(visited), 2int, 0int,
{
    augment_from(chosen, pools, required, item, lists, visited, 0)
}

/// The search for `item` trying pools `i`, `i + 1`, ...: a pool is skipped
/// when visited or when it does not list the pick; otherwise it is marked,
/// and takes the pick when under budget, else its picks are displaced in
/// turn (`displace`).
pub open spec fn augment_from(
    chosen: Seq<String>,
    pools: Seq<Vec<String>>,
    required: Seq<usize>,
    item: int,
    lists: Seq<Seq<usize>>,
    visited: Seq<bool>,
    i: int,
) -> (bool, Seq<Seq<usize>>, Seq<bool>)
    decreases open_pools(visited), 1int, pools.len() - i,
{
    if i < 0 || i >= pools.len() || i >= visited.len() || i >= lists.len() {
        (false, lists, visited)
    } else if visited[i] || !eligible(chosen, pools, item, i) {
        augment_from(chosen, pools, required, item, lists, visited, i + 1)
    } else if lists[i].len() < required[i] {
        (true, lists.update(i, lists[i].push(item as usize)), visited.update(i, true))
    } else {
        proof {
            lemma_unvisited_shrinks(visited, visited.update(i, true), i);
        }
        displace(chosen, pools, required, item, i, lists[i].len() as int, lists, visited.update(i, true), 0)
    }
}

/// Pool `i` is full: its picks `k`, `k + 1`, ... (of the `len` it held when
/// marked) are searched a new pool in turn; the first that finds one gives
/// its place in pool `i` to `item`. When none does the search goes on with
/// pool `i + 1`.
pub open spec fn displace(
    chosen: Seq<String>,
    pools: Seq<Vec<String>>,
    required: Seq<usize>,
    item: int,
    i: int,
    len: int,
    lists: Seq<Seq<usize>>,
    visited: Seq<bool>,
    k: int,
) -> (bool, Seq<Seq<usize>>, Seq<bool>)
    decreases open_pools(visited) + 1, 0int, len - k,
{
    if k < 0 || k >= len || i < 0 || i >= lists.len() || k >= lists[i].len() {
        augment_from(chosen, pools, required, item, lists, visited, i + 1)
    } else {
        let r = augment(chosen, pools, required, lists[i][k] as int, lists, visited);
        if r.0 {
            (true, r.1.update(i, r.1[i].update(k, item as usize)), r.2)
        } else if grows(visited, r.2) {
            proof {
                lemma_count_mono(visited.len() as int, unvisited(r.2), unvisited(visited));
            }
            displace(chosen, pools, required, item, i, len, r.1, r.2, k + 1)
        } else {
            (false, r.1, r.2)
        }
    }
}

/// List `g` of `after` is one longer than in `before`; every other list keeps
/// its length.
pub open spec fn one_list_longer(before: Seq<Seq<usize>>, after: Seq<Seq<usize>>, g: int) -> bool {
    &&& after[g].len() == before[g].len() + 1
    &&& forall|p: int| 0 <= p < before.len() && p != g ==> #[trigger] after[p].len() == before[p].len()
}

/// What a search outcome `r` from `(lists, visited)` keeps: the marks only
/// grow, the lists of visited pools are untouched, a failed search changes no
/// list, and a successful one makes exactly one list, of a pool unvisited
/// before, one longer.
pub open spec fn search_effects(
    lists: Seq<Seq<usize>>,
    visited: Seq<bool>,
    r: (bool, Seq<Seq<usize>>, Seq<bool>),
) -> bool {
    &&& grows(visited, r.2)
    &&& r.1.len() == lists.len()
    &&& forall|p: int| 0 <= p < lists.len() && visited[p] ==> #[trigger] r.1[p] == lists[p]
    &&& !r.0 ==> r.1 == lists
    &&& r.0 ==> exists|g: int| 0 <= g < lists.len() && !visited[g] && #[trigger] one_list_longer(lists, r.1, g)
}

/// The search on any state whose lists and marks cover the pools: a failed
/// search changes no pool's list, the visited marks only grow, lists of pools
/// visited on entry stay as they were, and after a successful search exactly
/// one pool unvisited on entry holds one more pick while every other pool
/// keeps its length.
pub proof fn lemma_search_any_state(
    chosen: Seq<String>,
    pools: Seq<Vec<String>>,
    required: Seq<usize>,
    item: int,
    lists: Seq<Seq<usize>>,
    visited: Seq<bool>,
)
    requires
        lists.len() == pools.len(),
        visited.len() == pools.len(),
    ensures
        search_effects(lists, visited, augment(chosen, pools, required, item, lists, visited)),
    decreases open_pools(visited), 2int, 0int,
{
    lemma_search_from(chosen, pools, required, item, lists, visited, 0);
}

proof fn lemma_search_from(
    chosen: Seq<String>,
    pools: Seq<Vec<String>>,
    required: Seq<usize>,
    item: int,
    lists: Seq<Seq<usize>>,
    visited: Seq<bool>,
    i: int,
)
    requires
        lists.len() == pools.len(),
        visited.len() == pools.len(),
    ensures
        search_effects(lists, visited, augment_from(chosen, pools, required, item, lists, visited, i)),
    decreases open_pools(visited), 1int, pools.len() - i,
{
    let r = augment_from(chosen, pools, required, item, lists, visited, i);
    if i < 0 || i >= pools.len() || i >= visited.len() || i >= lists.len() {
    } else if visited[i] || !eligible(chosen, pools, item, i) {
        lemma_search_from(chosen, pools, required, item, lists, visited, i + 1);
    } else if lists[i].len() < required[i] {
        assert(one_list_longer(lists, r.1, i));
    } else {
        let v1 = visited.update(i, true);
        lemma_unvisited_shrinks(visited, v1, i);
        lemma_search_displace(chosen, pools, required, item, i, lists[i].len() as int, lists, v1, 0);
        let d = displace(chosen, pools, required, item, i, lists[i].len() as int, lists, v1, 0);
        assert(r == d);
        assert forall|p: int| 0 <= p < lists.len() && visited[p] implies #[trigger] r.1[p] == lists[p] by {
            assert(v1[p]);
        }
        if r.0 {
            let g = choose|g: int| 0 <= g < lists.len() && !v1[g] && #[trigger] one_list_longer(lists, d.1, g);
            assert(one_list_longer(lists, r.1, g));
        }
    }
}

proof fn lemma_search_displace(
    chosen: Seq<String>,
    pools: Seq<Vec<String>>,
    required: Seq<usize>,
    item: int,
    i: int,
    len: int,
    lists: Seq<Seq<usize>>,
    visited: Seq<bool>,
    k: int,
)
    requires
        lists.len() == pools.len(),
        visited.len() == pools.len(),
        0 <= i < pools.len(),
        visited[i],
    ensures
        ({
            let r = displace(chosen, pools, required, item, i, len, lists, visited, k);
            &&& grows(visited, r.2)
            &&& r.1.len() == lists.len()
            &&& forall|p: int| 0 <= p < lists.len() && visited[p] && p != i ==> #[trigger] r.1[p] == lists[p]
            &&& !r.0 ==> r.1 == lists
            &&& r.0 ==> exists|g: int| 0 <= g < lists.len() && !visited[g] && #[trigger] one_list_longer(lists, r.1, g)
        }),
    decreases open_pools(visited) + 1, 0int, len - k,
{
    let r = displace(chosen, pools, required, item, i, len, lists, visited, k);
    if k < 0 || k >= len || k >= lists[i].len() {
        lemma_search_from(chosen, pools, required, item, lists, visited, i + 1);
    } else {
        let a = augment(chosen, pools, required, lists[i][k] as int, lists, visited);
        lemma_search_any_state(chosen, pools, required, lists[i][k] as int, lists, visited);
        if a.0 {
            assert(a.1[i] == lists[i]);
            let g = choose|g: int| 0 <= g < lists.len() && !visited[g] && #[trigger] one_list_longer(lists, a.1, g);
            assert(g != i);
            assert(one_list_longer(lists, r.1, g));
        } else {
            assert(a.1 == lists);
            lemma_count_mono(visited.len() as int, unvisited(a.2), unvisited(visited));
            lemma_search_displace(chosen, pools, required, item, i, len, a.1, a.2, k + 1);
            let d = displace(chosen, pools, required, item, i, len, a.1, a.2, k + 1);
            assert(r == d);
            assert forall|p: int| 0 <= p < lists.len() && visited[p] && p != i implies #[trigger] r.1[p] == lists[p] by {
                assert(a.2[p]);
            }
            if r.0 {
                let g = choose|g: int| 0 <= g < lists.len() && !a.2[g] && #[trigger] one_list_longer(lists, d.1, g);
                assert(!visited[g]);
            }
        }
    }
}

/// Moving picks from `owner` to `o2` (with `item` newly placed) leaves every
/// pool's count as it was, except that pool `g` gains one.
#[verifier::opaque]
pub open spec fn one_gainer(owner: Seq<int>, o2: Seq<int>, item: int, g: int, n: int) -> bool {
    forall|p: int|
        0 <= p < n ==> #[trigger] count_owned(o2, p) + (if owner[item] == p { 1int } else { 0int }) == count_owned(
            owner,
            p,
        ) + (if g == p { 1int } else { 0int })
}

/// List `g` of `after` is one longer than in `before`; every other list
/// keeps its length.
pub open spec fn grows_one(before: Seq<Vec<usize>>, after: Seq<Vec<usize>>, g: int) -> bool {
    &&& after[g]@.len() == before[g]@.len() + 1
    &&& forall|p: int| 0 <= p < before.len() && p != g ==> #[trigger] after[p]@.len() == before[p]@.len()
}

/// After a successful search (what `try_assign_to_pool` ensures, from a
/// state meeting its requirements) exactly one pool, one not visited on
/// entry, holds one more pick, and every other pool keeps its length.
pub proof fn lemma_one_pool_grows(
    chosen: Seq<String>,
    pools: Seq<Vec<String>>,
    required: Seq<usize>,
    before: Seq<Vec<usize>>,
    after: Seq<Vec<usize>>,
    owner: Seq<int>,
    o2: Seq<int>,
    v0: Seq<bool>,
    item: int,
    g: int,
)
    requires
        before.len() == pools.len(),
        after.len() == pools.len(),
        v0.len() == pools.len(),
        0 <= item < owner.len(),
        0 <= g < pools.len(),
        !v0[g],
        one_gainer(owner, o2, item, g, pools.len() as int),
        owner[item] == -1 || (0 <= owner[item] < pools.len() && v0[owner[item]]),
        forall|p: int| 0 <= p < pools.len() && v0[p] ==> #[trigger] after[p] == before[p],
        forall|p: int|
            0 <= p < pools.len() && !v0[p] ==> #[trigger] pool_consistent(chosen, pools, required, before, owner, p),
        forall|p: int| 0 <= p < pools.len() && !v0[p] ==> #[trigger] pool_consistent(chosen, pools, required, after, o2, p),
    ensures
        grows_one(before, after, g),
{
    reveal(one_gainer);
    assert(pool_consistent(chosen, pools, required, before, owner, g));
    assert(pool_consistent(chosen, pools, required, after, o2, g));
    assert(count_owned(o2, g) + (if owner[item] == g { 1int } else { 0int }) == count_owned(owner, g) + 1);
    assert forall|p: int| 0 <= p < before.len() && p != g implies #[trigger] after[p]@.len() == before[p]@.len() by {
        if !v0[p] {
            assert(pool_consistent(chosen, pools, required, before, owner, p));
            assert(pool_consistent(chosen, pools, required, after, o2, p));
            assert(count_owned(o2, p) + (if owner[item] == p { 1int } else { 0int }) == count_owned(owner, p));
        } else {
            assert(after[p] == before[p]);
        }
    }
}

/// Placing `item` into pool `i` after the pick it displaced from `i` moved
/// on leaves the same pool `g` as the one that gained.
proof fn lemma_gainer_moves(owner: Seq<int>, o1: Seq<int>, item: int, displaced: int, i: int, g: int, n: int)
    requires
        0 <= item < owner.len(),
        o1.len() == owner.len(),
        one_gainer(owner, o1, displaced, g, n),
        owner[displaced] == i,
        o1[item] == owner[item],
    ensures
        one_gainer(owner, o1.update(item, i), item, g, n),
{
    reveal(one_gainer);
    let o2 = o1.update(item, i);
    assert forall|p: int| 0 <= p < n implies #[trigger] count_owned(o2, p) + (if owner[item] == p { 1int } else {
        0int
    }) == count_owned(owner, p) + (if g == p { 1int } else { 0int }) by {
        lemma_count_move(o1, item, i, p);
        assert(count_owned(o1, p) + (if owner[displaced] == p { 1int } else { 0int }) == count_owned(owner, p) + (if g
            == p { 1int } else { 0int }));
    }
}

/// What a successful search for `item` leaves, from pools visited `v0`,
/// lists `before` and attribution `owner`: the new attribution `o2` is well
/// formed and places `item` in a pool unvisited in `v0`; only picks owned by
/// such pools moved, each into such a pool; visited pools keep their lists
/// and counts; every unvisited pool is consistent with `after`; and exactly
/// one unvisited pool gained a pick.
#[verifier::opaque]
pub open spec fn placed(
    chosen: Seq<String>,
    pools: Seq<Vec<String>>,
    required: Seq<usize>,
    owner: Seq<int>,
    v0: Seq<bool>,
    before: Seq<Vec<usize>>,
    after: Seq<Vec<usize>>,
    o2: Seq<int>,
    item: int,
) -> bool {
    &&& owner_wf(chosen, pools, o2)
    &&& owned_unvisited(o2, v0, item)
    &&& forall|y: int|
        0 <= y < o2.len() && #[trigger] o2[y] != owner[y] ==> y == item || owned_unvisited(
            owner,
            v0,
            y,
        )
    &&& forall|y: int|
        0 <= y < o2.len() && #[trigger] o2[y] != owner[y] ==> owned_unvisited(o2, v0, y)
    &&& forall|p: int|
        0 <= p < pools.len() && v0[p] ==> #[trigger] after[p] == before[p]
    &&& forall|p: int|
        0 <= p < pools.len() && v0[p] ==> #[trigger] count_owned(o2, p) + (if owner[item]
            == p { 1int } else { 0int }) == count_owned(owner, p)
    &&& forall|p: int|
        0 <= p < pools.len() && !v0[p] ==> #[trigger] pool_consistent(
            chosen,
            pools,
            required,
            after,
            o2,
            p,
        )
    &&& exists|g: int|
        0 <= g < pools.len() && !v0[g] && #[trigger] one_gainer(
            owner,
            o2,
            item,
            g,
            pools.len() as int,
        )
}

proof fn lemma_room_placed(
    chosen: Seq<String>,
    pools: Seq<Vec<String>>,
    required: Seq<usize>,
    owner: Seq<int>,
    v0: Seq<bool>,
    items0: Seq<Vec<usize>>,
    after: Seq<Vec<usize>>,
    item: int,
    i: int,
)
    requires
        0 <= i < pools.len(),
        pools.len() <= required.len(),
        0 <= item < chosen.len(),
        chosen.len() <= usize::MAX,
        items0.len() == pools.len(),
        v0.len() == pools.len(),
        !v0[i],
        eligible(chosen, pools, item, i),
        items0[i]@.len() < required[i],
        after == items0.update(i, after[i]),
        after[i]@ == items0[i]@.push(item as usize),
        owner_wf(chosen, pools, owner),
        owner[item] == -1 || (0 <= owner[item] < pools.len() && v0[owner[item]]),
        forall|p: int| 0 <= p < pools.len() && !v0[p] ==> #[trigger] pool_consistent(chosen, pools, required, items0, owner, p),
    ensures
        placed(chosen, pools, required, owner, v0, items0, after, owner.update(item, i), item),
{
    reveal(placed);
    assert(pool_consistent(chosen, pools, required, items0, owner, i));
    let it2 = after;
    let o2 = owner.update(item, i);
    assert(it2 == items0.update(i, it2[i]));
    assert(it2[i]@ == items0[i]@.push(item as usize));
    assert(owner[item] != i);
    assert forall|p: int| 0 <= p < pools.len() implies #[trigger] count_owned(o2, p) + (if owner[item]
        == p { 1int } else { 0int }) == count_owned(owner, p) + (if i == p { 1int } else { 0int }) by {
        lemma_count_move(owner, item, i, p);
    }
    assert forall|p: int| 0 <= p < pools.len() && !v0[p] implies #[trigger] pool_consistent(
        chosen,
        pools,
        required,
        it2,
        o2,
        p,
    ) by {
        assert(pool_consistent(chosen, pools, required, items0, owner, p));
        if p == i {
            let list = it2[p]@;
            assert forall|y: int| 0 <= y < o2.len() && o2[y] == p implies #[trigger] list.contains(
                y as usize,
            ) by {
                if y == item {
                    assert(list[list.len() - 1] == item);
                } else {
                    assert(items0[p]@.contains(y as usize));
                    let k = lemma_list_has(items0[p]@, y as usize);
                    assert(list[k] == y as usize);
                }
            }
            assert forall|k1: int, k2: int| 0 <= k1 < k2 < list.len() implies #[trigger] list[k1]
                != #[trigger] list[k2] by {
                if k2 == list.len() - 1 {
                    assert(owner[list[k1] as int] == p);
                }
            }
        }
    }
    assert(owner_wf(chosen, pools, o2));
    assert(one_gainer(owner, o2, item, i, pools.len() as int)) by {
        reveal(one_gainer);
    }
    assert(exists|g: int| 0 <= g < pools.len() && !v0[g] && #[trigger] one_gainer(owner, o2, item, g, pools.len() as int));
}

/// The search for the pick displaced from slot `k` of full pool `i`
/// succeeded from visited marks `v_call`; `item` takes that slot.
proof fn lemma_displace_placed(
    chosen: Seq<String>,
    pools: Seq<Vec<String>>,
    required: Seq<usize>,
    owner: Seq<int>,
    o1: Seq<int>,
    v0: Seq<bool>,
    v_call: Seq<bool>,
    items0: Seq<Vec<usize>>,
    items1: Seq<Vec<usize>>,
    after: Seq<Vec<usize>>,
    item: int,
    i: int,
    k: int,
    displaced: int,
)
    requires
        0 <= i < pools.len(),
        pools.len() <= required.len(),
        0 <= item < chosen.len(),
        chosen.len() <= usize::MAX,
        items0.len() == pools.len(),
        items1.len() == pools.len(),
        v0.len() == pools.len(),
        !v0[i],
        grows(v0, v_call),
        v_call[i],
        eligible(chosen, pools, item, i),
        0 <= k < items0[i]@.len(),
        items0[i]@.len() >= required[i],
        displaced == items0[i]@[k],
        owner[displaced] == i,
        owner_wf(chosen, pools, owner),
        owner[item] == -1 || (0 <= owner[item] < pools.len() && v0[owner[item]]),
        forall|p: int| 0 <= p < pools.len() && !v0[p] ==> #[trigger] pool_consistent(chosen, pools, required, items0, owner, p),
        placed(chosen, pools, required, owner, v_call, items0, items1, o1, displaced),
        after == items1.update(i, after[i]),
        after[i]@ == items1[i]@.update(k, item as usize),
    ensures
        placed(chosen, pools, required, owner, v0, items0, after, o1.update(item, i), item),
{
    reveal(placed);
    let it2 = after;
    let o2 = o1.update(item, i);
    assert(items1[i] == items0[i]);
    assert(it2 == items1.update(i, it2[i]));
    assert(it2[i]@ == items0[i]@.update(k, item as usize));
    // the displaced pick now sits in a pool unvisited at the call
    assert(o1[displaced] != i);
    assert(o1[item] == owner[item]);
    assert(owner[item] != i);
    assert forall|p: int| 0 <= p < pools.len() && v0[p] implies #[trigger] count_owned(o2, p) + (
    if owner[item] == p { 1int } else { 0int }) == count_owned(owner, p) by {
        lemma_count_move(o1, item, i, p);
        assert(v_call[p]);
    }
    assert forall|p: int| 0 <= p < pools.len() && v0[p] implies #[trigger] after[p]
        == items0[p] by {
        assert(v_call[p]);
    }
    assert forall|y: int|
        0 <= y < o2.len() && #[trigger] o2[y] != owner[y] implies y == item || owned_unvisited(
        owner,
        v0,
        y,
    ) by {
        if y != item && o1[y] != owner[y] {
            if y != displaced {
                assert(owned_unvisited(owner, v_call, y));
            }
        }
    }
    assert forall|y: int|
        0 <= y < o2.len() && #[trigger] o2[y] != owner[y] implies owned_unvisited(o2, v0, y) by {
        if y != item {
            assert(o1[y] != owner[y]);
            assert(owned_unvisited(o1, v_call, y));
        }
    }
    assert forall|p: int| 0 <= p < pools.len() && !v0[p] implies #[trigger] pool_consistent(
        chosen,
        pools,
        required,
        it2,
        o2,
        p,
    ) by {
        assert(pool_consistent(chosen, pools, required, items0, owner, p));
        if p == i {
            let list = it2[p]@;
            let list0 = items0[p]@;
            // count: the displaced pick left, `item` arrived
            lemma_count_move(o1, item, i, p);
            assert(count_owned(o1, p) + 1 == count_owned(owner, p));
            assert forall|kk: int| 0 <= kk < list.len() implies #[trigger] list[kk] < chosen.len()
                && o2[list[kk] as int] == p by {
                if kk != k {
                    let y = list0[kk] as int;
                    assert(owner[y] == p);
                    assert(y != displaced);
                    if o1[y] != owner[y] {
                        assert(owned_unvisited(owner, v_call, y));
                    }
                }
            }
            assert forall|k1: int, k2: int| 0 <= k1 < k2 < list.len() implies #[trigger] list[k1]
                != #[trigger] list[k2] by {
                if k1 == k {
                    assert(owner[list0[k2] as int] == p);
                } else if k2 == k {
                    assert(owner[list0[k1] as int] == p);
                }
            }
            assert forall|y: int| 0 <= y < o2.len() && o2[y] == p implies #[trigger] list.contains(
                y as usize,
            ) by {
                if y == item {
                    assert(list[k] == item);
                } else {
                    assert(o1[y] == p);
                    if owner[y] != p {
                        assert(owned_unvisited(o1, v_call, y));
                        assert(false);
                    }
                    assert(y != displaced);
                    assert(list0[k] == displaced);
                    assert((y as usize) as int == y);
                    let kk = lemma_list_has(list0, y as usize);
                    assert(kk != k);
                    assert(list[kk] == y as usize);
                }
            }
        } else if !v_call[p] {
            assert(pool_consistent(chosen, pools, required, items1, o1, p));
            assert(it2[p] == items1[p]);
            lemma_count_move(o1, item, i, p);
        } else {
            // visited by an earlier failed attempt: untouched by the call
            assert(it2[p] == items0[p]);
            let list = it2[p]@;
            assert(owner[displaced] != p);
            lemma_count_move(o1, item, i, p);
            assert forall|kk: int| 0 <= kk < list.len() implies #[trigger] list[kk] < chosen.len()
                && o2[list[kk] as int] == p by {
                let y = list[kk] as int;
                assert(owner[y] == p);
                if o1[y] != owner[y] {
                    assert(owned_unvisited(owner, v_call, y));
                }
            }
            assert forall|y: int| 0 <= y < o2.len() && o2[y] == p implies #[trigger] list.contains(
                y as usize,
            ) by {
                if owner[y] != p {
                    assert(owned_unvisited(o1, v_call, y));
                    assert(false);
                }
            }
        }
    }
    assert(owner_wf(chosen, pools, o2));
    let g = choose|g: int|
        0 <= g < pools.len() && !v_call[g] && #[trigger] one_gainer(
            owner,
            o1,
            displaced,
            g,
            pools.len() as int,
        );
    lemma_gainer_moves(owner, o1, item, displaced, i, g, pools.len() as int);
    assert(!v0[g]);
    assert(exists|g2: int|
        0 <= g2 < pools.len() && !v0[g2] && #[trigger] one_gainer(
            owner,
            o2,
            item,
            g2,
            pools.len() as int,
        ));
}

/// Tries to place pick `item` into a pool not yet visited, displacing picks
/// along an augmenting path where a pool is full.
///
/// The outcome (success, the pools' lists and the visited marks) is the one
/// `augment` gives for the state on entry; `lemma_search_any_state` says what
/// that outcome keeps on any state.
///
/// On success the pick is attributed to a pool that was unvisited on entry,
/// lists of pools visited on entry are untouched, and every pool unvisited on
/// entry stays consistent. On failure nothing moves, and every pool newly
/// visited is settled: full, with all its picks' eligible pools visited.
pub fn try_assign_to_pool(
    item: usize,
    chosen: &[String],
    pools: &[Vec<String>],
    required: &[usize],
    pool_items: &mut Vec<Vec<usize>>,
    visited: &mut Vec<bool>,
    Ghost(owner): Ghost<Seq<int>>,
) -> (res: (bool, Ghost<Seq<int>>))
    requires
        item < chosen@.len(),
        chosen@.len() <= usize::MAX,
        pools@.len() <= required@.len(),
        old(pool_items)@.len() == pools@.len(),
        old(visited)@.len() == pools@.len(),
        owner_wf(chosen@, pools@, owner),
        owner[item as int] == -1 || (0 <= owner[item as int] < pools@.len() && old(visited)@[owner[item as int]]),
        forall|p: int|
            0 <= p < pools@.len() && !old(visited)@[p] ==> #[trigger] pool_consistent(
                chosen@,
                pools@,
                required@,
                old(pool_items)@,
                owner,
                p,
            ),
    ensures
        final(pool_items)@.len() == pools@.len(),
        grows(old(visited)@, final(visited)@),
        augment(chosen@, pools@, required@, item as int, list_views(old(pool_items)@), old(visited)@) == (
            res.0,
            list_views(final(pool_items)@),
            final(visited)@,
        ),
        ({
            let (ok, new_owner) = res;
            let o2 = new_owner@;
            if ok {
                placed(chosen@, pools@, required@, owner, old(visited)@, old(pool_items)@, final(pool_items)@, o2, item as int)
            } else {
                &&& o2 == owner
                &&& final(pool_items)@ == old(pool_items)@
                &&& forall|q: int| #[trigger] eligible(chosen@, pools@, item as int, q) ==> final(visited)@[q]
                &&& settled(chosen@, pools@, required@, owner, old(visited)@, final(visited)@)
            }
        }),
    decreases count_idx(old(visited)@.len() as int, unvisited(old(visited)@)),
{
    let ghost v0 = visited@;
    let ghost items0 = pool_items@;
    let n = pools.len();
    let mut i: usize = 0;
    while i < n
        invariant
            n == pools@.len(),
            i <= n,
            pools@.len() <= required@.len(),
            item < chosen@.len(),
            chosen@.len() <= usize::MAX,
            owner_wf(chosen@, pools@, owner),
            owner[item as int] == -1 || (0 <= owner[item as int] < pools@.len() && v0[owner[item as int]]),
            pool_items@ == items0,
            items0.len() == pools@.len(),
            v0.len() == pools@.len(),
            v0 == old(visited)@,
            items0 == old(pool_items)@,
            grows(v0, visited@),
            forall|p: int| 0 <= p < pools@.len() && !v0[p] ==> #[trigger] pool_consistent(
                chosen@,
                pools@,
                required@,
                items0,
                owner,
                p,
            ),
            forall|q: int| 0 <= q < i && #[trigger] eligible(chosen@, pools@, item as int, q) ==> visited@[q],
            settled(chosen@, pools@, required@, owner, v0, visited@),
            augment(chosen@, pools@, required@, item as int, list_views(items0), v0) == augment_from(
                chosen@,
                pools@,
                required@,
                item as int,
                list_views(items0),
                visited@,
                i as int,
            ),
        decreases n - i,
    {
        if visited[i] || !pool_contains(&pools[i], &chosen[item]) {
            proof {
                assert(list_views(items0).len() == n);
            }
            i = i + 1;
            continue;
        }
        let ghost v_before = visited@;
        visited.set(i, true);
        assert(!v0[i as int]);
        assert(grows(v0, visited@));
        assert(pool_consistent(chosen@, pools@, required@, items0, owner, i as int));
        if pool_items[i].len() < required[i] {
            let ghost o2 = owner.update(item as int, i as int);
            pool_items[i].push(item);
            proof {
                let it2 = pool_items@;
                assert(it2 == items0.update(i as int, it2[i as int]));
                assert(it2[i as int]@ == items0[i as int]@.push(item));
                lemma_room_placed(chosen@, pools@, required@, owner, v0, items0, it2, item as int, i as int);
                assert(list_views(items0).len() == n);
                assert(list_views(it2) =~= list_views(items0).update(
                    i as int,
                    list_views(items0)[i as int].push(item),
                ));
            }
            return (true, Ghost(o2));
        }
        proof {
            lemma_unvisited_shrinks(v0, visited@, i as int);
        }
        let ghost v_mark = visited@;
        let len_i = pool_items[i].len();
        proof {
            assert(list_views(items0).len() == n);
            assert(list_views(items0)[i as int].len() == len_i);
        }
        let mut k: usize = 0;
        while k < len_i
            invariant
                n == pools@.len(),
                i < n,
                k <= len_i,
                len_i == items0[i as int]@.len(),
                len_i >= required@[i as int],
                pools@.len() <= required@.len(),
                item < chosen@.len(),
                chosen@.len() <= usize::MAX,
                owner_wf(chosen@, pools@, owner),
                owner[item as int] == -1 || (0 <= owner[item as int] < pools@.len() && v0[owner[item as int]]),
                pool_items@ == items0,
                items0.len() == pools@.len(),
                v0.len() == pools@.len(),
                v0 == old(visited)@,
                items0 == old(pool_items)@,
                !v0[i as int],
                eligible(chosen@, pools@, item as int, i as int),
                grows(v_mark, visited@),
                grows(v0, v_mark),
                v_mark[i as int],
                count_idx(v_mark.len() as int, unvisited(v_mark)) < count_idx(v0.len() as int, unvisited(v0)),
                forall|p: int| 0 <= p < pools@.len() && !v0[p] ==> #[trigger] pool_consistent(
                    chosen@,
                    pools@,
                    required@,
                    items0,
                    owner,
                    p,
                ),
                forall|q: int| 0 <= q < i && #[trigger] eligible(chosen@, pools@, item as int, q) ==> visited@[q],
                v_mark == v_before.update(i as int, true),
                grows(v0, v_before),
                settled(chosen@, pools@, required@, owner, v_mark, visited@),
                settled(chosen@, pools@, required@, owner, v0, v_before),
                forall|kk: int, q: int|
                    0 <= kk < k && #[trigger] eligible(chosen@, pools@, items0[i as int]@[kk] as int, q) ==> visited@[q],
                augment(chosen@, pools@, required@, item as int, list_views(items0), v0) == displace(
                    chosen@,
                    pools@,
                    required@,
                    item as int,
                    i as int,
                    len_i as int,
                    list_views(items0),
                    visited@,
                    k as int,
                ),
            decreases len_i - k,
        {
            let displaced = pool_items[i][k];
            proof {
                assert(pool_consistent(chosen@, pools@, required@, items0, owner, i as int));
                assert(owner[displaced as int] == i as int);
                assert(displaced == items0[i as int]@[k as int]);
                lemma_count_mono(v_mark.len() as int, unvisited(visited@), unvisited(v_mark));
            }
            let ghost v_call = visited@;
            proof {
                assert(list_views(items0).len() == n);
                assert(list_views(items0)[i as int][k as int] == displaced);
            }
            let (ok, Ghost(o1)) = try_assign_to_pool(
                displaced,
                chosen,
                pools,
                required,
                pool_items,
                visited,
                Ghost(owner),
            );
            if ok {
                assert(grows(v0, visited@));
                let ghost o2 = o1.update(item as int, i as int);
                let ghost items1 = pool_items@;
                proof {
                    assert(items1[i as int] == items0[i as int]) by {
                        reveal(placed);
                    }
                }
                pool_items[i].set(k, item);
                proof {
                    let it2 = pool_items@;
                    assert(it2 == items1.update(i as int, it2[i as int]));
                    assert(it2[i as int]@ == items1[i as int]@.update(k as int, item));
                    lemma_displace_placed(
                        chosen@,
                        pools@,
                        required@,
                        owner,
                        o1,
                        v0,
                        v_call,
                        items0,
                        items1,
                        it2,
                        item as int,
                        i as int,
                        k as int,
                        displaced as int,
                    );
                    assert(list_views(items1).len() == n);
                    assert(list_views(it2) =~= list_views(items1).update(
                        i as int,
                        list_views(items1)[i as int].update(k as int, item),
                    ));
                }
                return (true, Ghost(o2));
            }
            proof {
                assert(items0[i as int]@[k as int] == displaced);
            }
            k = k + 1;
        }
        proof {
            assert forall|y: int, q: int|
                0 <= y < owner.len() && 0 <= owner[y] < visited@.len() && visited@[owner[y]] && !v0[owner[y]]
                    && #[trigger] eligible(chosen@, pools@, y, q) implies visited@[q] by {
                if owner[y] == i as int {
                    assert(pool_consistent(chosen@, pools@, required@, items0, owner, i as int));
                    assert(items0[i as int]@.contains(y as usize));
                    let kk = lemma_list_has(items0[i as int]@, y as usize);
                    assert(eligible(chosen@, pools@, items0[i as int]@[kk] as int, q));
                } else if v_before[owner[y]] {
                    assert(v_before[q]);
                    assert(v_mark[q]);
                } else {
                    assert(!v_mark[owner[y]]);
                    assert(v_mark.len() == visited@.len());
                }
            }
            assert forall|p: int| 0 <= p < visited@.len() && #[trigger] visited@[p] && !v0[p] implies count_owned(
                owner,
                p,
            ) >= required@[p] by {
                if p == i as int {
                    assert(pool_consistent(chosen@, pools@, required@, items0, owner, i as int));
                } else if v_before[p] {
                } else {
                }
            }
        }
        i = i + 1;
    }
    (false, Ghost(owner))
}

/// The contents of each string slice.
pub open spec fn str_views(items: Seq<&str>) -> Seq<Seq<char>> {
    items.map_values(|s: &str| s@)
}

/// Owned copies of string slices, in order.
fn owned_strings(items: &[&str]) -> (r: Vec<String>)
    ensures
        crate::text::views(r@) == str_views(items@),
{
    let mut r: Vec<String> = Vec::new();
    let mut i: usize = 0;
    while i < items.len()
        invariant
            i <= items@.len(),
            crate::text::views(r@) == str_views(items@).take(i as int),
        decreases items@.len() - i,
    {
        let s = String::from_str(items[i]);
        let ghost before = r@;
        r.push(s);
        proof {
            assert(crate::text::views(before).len() == i);
            assert(crate::text::views(r@) =~= str_views(items@).take(i + 1));
        }
        i = i + 1;
    }
    proof {
        assert(str_views(items@).take(items@.len() as int) =~= str_views(items@));
    }
    r
}

/// A spell pool (spell ids) built from string slices.
pub fn pool(items: &[&str]) -> (r: Vec<String>)
    ensures
        crate::text::views(r@) == str_views(items@),
{
    owned_strings(items)
}

/// A list of shared picks (spell ids) built from string slices.
pub fn chosen(items: &[&str]) -> (r: Vec<String>)
    ensures
        crate::text::views(r@) == str_views(items@),
{
    owned_strings(items)
}

/// Whether `n` equals the sum of all budgets (computed without overflow).
pub(crate) fn matches_total(n: usize, required: &[usize]) -> (r: bool)
    ensures
        r == (n == total_required(required@)),
{
    // sum the budgets, stopping once the sum exceeds `n`
    let mut total: usize = 0;
    let mut j: usize = 0;
    while j < required.len()
        invariant
            j <= required@.len(),
            total as int == sum_idx(j as int, budget(required@)),
            total <= n,
        decreases required@.len() - j,
    {
        if required[j] > n - total {
            proof {
                assert(sum_idx(j as int + 1, budget(required@)) > n);
                lemma_tail_nonneg(required@, j as int + 1);
            }
            return false;
        }
        total = total + required[j];
        j = j + 1;
    }
    total == n
}

/// Whether the shared picks in `chosen` can be attributed to the pools that
/// list them so that pool `p` receives at most `required[p]` picks, and the
/// number of picks equals the sum of all budgets (so every pool is filled
/// exactly).
pub fn attribute_multiclass_choices(chosen: &[String], pools: &[Vec<String>], required: &[usize]) -> (r: bool)
    requires
        pools@.len() <= required@.len(),
    ensures
        r == (chosen@.len() == total_required(required@) && attribution_exists(chosen@, pools@, required@)),
{
    if !matches_total(chosen.len(), required) {
        return false;
    }
    let n = pools.len();
    let mut pool_items: Vec<Vec<usize>> = Vec::new();
    let mut p: usize = 0;
    while p < n
        invariant
            p <= n,
            n == pools@.len(),
            pool_items@.len() == p,
            forall|q: int| 0 <= q < p ==> (#[trigger] pool_items@[q])@.len() == 0,
        decreases n - p,
    {
        pool_items.push(Vec::new());
        p = p + 1;
    }
    let ghost mut owner: Seq<int> = Seq::new(chosen@.len(), |y: int| -1int);
    proof {
        assert forall|q: int| 0 <= q < n implies count_owned(owner, q) == 0 by {
            lemma_count_zero(owner, q);
        }
    }
    let mut item: usize = 0;
    while item < chosen.len()
        invariant
            item <= chosen@.len(),
            n == pools@.len(),
            pools@.len() <= required@.len(),
            pool_items@.len() == n,
            owner_wf(chosen@, pools@, owner),
            forall|y: int| 0 <= y < owner.len() ==> (#[trigger] owner[y] >= 0) == (y < item),
            forall|q: int| 0 <= q < n ==> #[trigger] pool_consistent(chosen@, pools@, required@, pool_items@, owner, q),
            chosen@.len() == total_required(required@),
        decreases chosen@.len() - item,
    {
        let mut visited: Vec<bool> = Vec::new();
        let mut q: usize = 0;
        while q < n
            invariant
                q <= n,
                visited@.len() == q,
                forall|r: int| 0 <= r < q ==> !#[trigger] visited@[r],
            decreases n - q,
        {
            visited.push(false);
            q = q + 1;
        }
        let ghost v_start = visited@;
        let ghost items_before = pool_items@;
        let (ok, Ghost(o2)) = try_assign_to_pool(item, chosen, pools, required, &mut pool_items, &mut visited, Ghost(owner));
        if !ok {
            proof {
                assert forall|y: int, q: int|
                    0 <= y < owner.len() && owned_in(owner, visited@)(y) && #[trigger] eligible(chosen@, pools@, y, q)
                    implies visited@[q] by {
                    assert(!v_start[owner[y]]);
                }
                assert forall|r: int| 0 <= r < visited@.len() && #[trigger] visited@[r] implies count_owned(owner, r)
                    >= required@[r] by {
                    assert(!v_start[r]);
                }
                lemma_no_attribution(chosen@, pools@, required@, owner, visited@, item as int);
            }
            return false;
        }
        proof {
            reveal(placed);
            assert forall|y: int| 0 <= y < o2.len() implies (#[trigger] o2[y] >= 0) == (y < item + 1) by {
                if o2[y] != owner[y] && y != item as int {
                    assert(owned_unvisited(owner, v_start, y));
                }
            }
            owner = o2;
        }
        item = item + 1;
    }
    proof {
        assert(valid_attribution(chosen@, pools@, required@, owner)) by {
            assert forall|q: int| 0 <= q < pools@.len() implies #[trigger] count_owned(owner, q) <= required@[q] by {
                assert(pool_consistent(chosen@, pools@, required@, pool_items@, owner, q));
            }
        }
    }
    true
}

/// No pick is attributed to any pool yet.
proof fn lemma_count_zero(owner: Seq<int>, q: int)
    requires
        q >= 0,
        forall|y: int| 0 <= y < owner.len() ==> #[trigger] owner[y] == -1,
    ensures
        count_owned(owner, q) == 0,
{
    lemma_count_none(owner.len() as int, owned_by(owner, q));
}

proof fn lemma_count_none(n: int, f: spec_fn(int) -> bool)
    requires
        forall|y: int| 0 <= y < n ==> !#[trigger] f(y),
    ensures
        count_idx(n, f) == 0,
    decreases n,
{
    if n > 0 {
        lemma_count_none(n - 1, f);
    }
}

/// Budgets after index `j` add a non-negative amount.
pub(crate) proof fn lemma_tail_nonneg(required: Seq<usize>, j: int)
    requires
        0 <= j <= required.len(),
    ensures
        total_required(required) >= sum_idx(j, budget(required)),
    decreases required.len() - j,
{
    if j < required.len() {
        lemma_tail_nonneg(required, j + 1);
    }
}

} // verus!
