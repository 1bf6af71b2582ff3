//! Finite counting over integer ranges, used by the pick-attribution proofs.
use vstd::prelude::*;

verus! {

/// Number of indices `y` in `0..n` for which `f(y)` holds.
pub open spec fn count_idx(n: int, f: spec_fn(int) -> bool) -> nat
    decreases n,
{
    if n <= 0 {
        0
    } else {
        count_idx(n - 1, f) + if f(n - 1) { 1nat } else { 0nat }
    }
}

/// Sum of `g(p)` over `p` in `0..n`.
pub open spec fn sum_idx(n: int, g: spec_fn(int) -> int) -> int
    decreases n,
{
    if n <= 0 {
        0
    } else {
        sum_idx(n - 1, g) + g(n - 1)
    }
}

/// Counting is monotone in the predicate.
pub proof fn lemma_count_mono(n: int, f: spec_fn(int) -> bool, g: spec_fn(int) -> bool)
    requires
        forall|y: int| 0 <= y < n && #[trigger] f(y) ==> g(y),
    ensures
        count_idx(n, f) <= count_idx(n, g),
    decreases n,
{
    if n > 0 {
        lemma_count_mono(n - 1, f, g);
    }
}

/// Counting only depends on the predicate inside the range.
pub proof fn lemma_count_ext(n: int, f: spec_fn(int) -> bool, g: spec_fn(int) -> bool)
    requires
        forall|y: int| 0 <= y < n ==> #[trigger] f(y) == g(y),
    ensures
        count_idx(n, f) == count_idx(n, g),
    decreases n,
{
    if n > 0 {
        lemma_count_ext(n - 1, f, g);
    }
}

/// Changing the predicate at one index inside the range changes the count by
/// what changed there.
pub proof fn lemma_count_point(n: int, f: spec_fn(int) -> bool, g: spec_fn(int) -> bool, x: int)
    requires
        0 <= x < n,
        forall|y: int| 0 <= y < n && y != x ==> #[trigger] f(y) == g(y),
    ensures
        count_idx(n, g) + (if f(x) { 1int } else { 0int }) == count_idx(n, f) + (if g(x) { 1int } else { 0int }),
    decreases n,
{
    if n - 1 == x {
        lemma_count_ext(n - 1, f, g);
    } else {
        lemma_count_point(n - 1, f, g, x);
    }
}

/// A count never exceeds the length of the range.
pub proof fn lemma_count_bound(n: int, f: spec_fn(int) -> bool)
    requires
        n >= 0,
    ensures
        count_idx(n, f) <= n,
    decreases n,
{
    if n > 0 {
        lemma_count_bound(n - 1, f);
    }
}

/// Sums are monotone in the summand.
pub proof fn lemma_sum_mono(n: int, g: spec_fn(int) -> int, h: spec_fn(int) -> int)
    requires
        forall|p: int| 0 <= p < n ==> #[trigger] g(p) <= h(p),
    ensures
        sum_idx(n, g) <= sum_idx(n, h),
    decreases n,
{
    if n > 0 {
        lemma_sum_mono(n - 1, g, h);
    }
}

/// A sum of indicators that hold at exactly one index `v` (if any) is that indicator.
pub proof fn lemma_sum_single(n: int, g: spec_fn(int) -> int, v: int)
    requires
        forall|p: int| 0 <= p < n && p != v ==> #[trigger] g(p) == 0,
    ensures
        sum_idx(n, g) == (if 0 <= v < n { g(v) } else { 0 }),
    decreases n,
{
    if n > 0 {
        lemma_sum_single(n - 1, g, v);
    }
}

/// The sum of a pointwise sum is the sum of the sums.
pub proof fn lemma_sum_add(n: int, g: spec_fn(int) -> int, h: spec_fn(int) -> int, k: spec_fn(int) -> int)
    requires
        forall|p: int| 0 <= p < n ==> #[trigger] k(p) == g(p) + h(p),
    ensures
        sum_idx(n, k) == sum_idx(n, g) + sum_idx(n, h),
    decreases n,
{
    if n > 0 {
        lemma_sum_add(n - 1, g, h, k);
    }
}

} // verus!
