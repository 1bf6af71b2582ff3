//! The skills an expertise slot offers: every skill the character is
//! proficient in, once each, in ascending text order.
use vstd::prelude::*;
use crate::text::views;

verus! {

/// `a` sorts before `b`: compared character by character by code point,
/// with a proper prefix first (the order of `String`s).
pub open spec fn text_before(a: Seq<char>, b: Seq<char>) -> bool
    decreases a.len(),
{
    if a.len() == 0 {
        b.len() > 0
    } else if b.len() == 0 {
        false
    } else if a[0] != b[0] {
        (a[0] as int) < (b[0] as int)
    } else {
        text_before(a.drop_first(), b.drop_first())
    }
}

/// Strictly ascending, hence without repeats.
pub open spec fn ascending(s: Seq<Seq<char>>) -> bool {
    forall|i: int, j: int| 0 <= i < j < s.len() ==> text_before(#[trigger] s[i], #[trigger] s[j])
}

proof fn lemma_before_irreflexive(a: Seq<char>)
    ensures
        !text_before(a, a),
    decreases a.len(),
{
    if a.len() > 0 {
        lemma_before_irreflexive(a.drop_first());
    }
}

proof fn lemma_before_total(a: Seq<char>, b: Seq<char>)
    ensures
        a == b || text_before(a, b) || text_before(b, a),
    decreases a.len(),
{
    if a.len() > 0 && b.len() > 0 && a[0] == b[0] {
        lemma_before_total(a.drop_first(), b.drop_first());
        if a.drop_first() == b.drop_first() {
            assert(a =~= seq![a[0]] + a.drop_first());
            assert(b =~= seq![b[0]] + b.drop_first());
        }
    } else if a.len() == 0 && b.len() == 0 {
        assert(a =~= b);
    }
}

proof fn lemma_before_transitive(a: Seq<char>, b: Seq<char>, c: Seq<char>)
    requires
        text_before(a, b),
        text_before(b, c),
    ensures
        text_before(a, c),
    decreases a.len(),
{
    if a.len() > 0 && b.len() > 0 && c.len() > 0 && a[0] == b[0] && b[0] == c[0] {
        lemma_before_transitive(a.drop_first(), b.drop_first(), c.drop_first());
    }
}

proof fn lemma_before_asymmetric(a: Seq<char>, b: Seq<char>)
    requires
        text_before(a, b),
    ensures
        !text_before(b, a),
    decreases a.len(),
{
    if a.len() > 0 && b.len() > 0 && a[0] == b[0] {
        lemma_before_asymmetric(a.drop_first(), b.drop_first());
    }
}

/// Whether `a` sorts before `b`.
fn sorts_before(a: &String, b: &String) -> (r: bool)
    ensures
        r == text_before(a@, b@),
{
    let sa = a.as_str();
    let sb = b.as_str();
    let na = sa.unicode_len();
    let nb = sb.unicode_len();
    let mut i: usize = 0;
    assert(a@.skip(0) =~= a@);
    assert(b@.skip(0) =~= b@);
    while i < na && i < nb
        invariant
            i <= na,
            i <= nb,
            na == a@.len(),
            nb == b@.len(),
            sa@ == a@,
            sb@ == b@,
            text_before(a@, b@) == text_before(a@.skip(i as int), b@.skip(i as int)),
        decreases na - i,
    {
        let ca = sa.get_char(i);
        let cb = sb.get_char(i);
        proof {
            assert(a@.skip(i as int)[0] == ca);
            assert(b@.skip(i as int)[0] == cb);
            assert(a@.skip(i as int).drop_first() =~= a@.skip(i + 1));
            assert(b@.skip(i as int).drop_first() =~= b@.skip(i + 1));
        }
        if ca != cb {
            return (ca as u32) < (cb as u32);
        }
        i = i + 1;
    }
    proof {
        assert(a@.skip(i as int).len() == na - i);
        assert(b@.skip(i as int).len() == nb - i);
    }
    i == na && i < nb
}

/// Puts `x` into an ascending list unless already listed.
fn insert_ascending(list: &mut Vec<String>, x: String)
    requires
        ascending(views(old(list)@)),
    ensures
        ascending(views(final(list)@)),
        forall|s: Seq<char>| #[trigger] views(final(list)@).contains(s) <==> (views(old(list)@).contains(s) || s == x@),
{
    let ghost v0 = views(list@);
    let mut k: usize = 0;
    while k < list.len() && sorts_before(&list[k], &x)
        invariant
            k <= list@.len(),
            v0 == views(list@),
            ascending(v0),
            forall|i: int| 0 <= i < k ==> text_before(#[trigger] v0[i], x@),
        decreases list@.len() - k,
    {
        k = k + 1;
    }
    if k < list.len() && list[k] == x {
        proof {
            assert(v0[k as int] == x@);
            assert forall|s: Seq<char>| #[trigger] views(list@).contains(s) <==> (v0.contains(s) || s == x@) by {
                if s == x@ {
                    assert(v0[k as int] == s);
                }
            }
        }
        return;
    }
    proof {
        if k < v0.len() {
            assert(!text_before(v0[k as int], x@));
            assert(v0[k as int] != x@);
            lemma_before_total(v0[k as int], x@);
            assert(text_before(x@, v0[k as int]));
        }
    }
    list.insert(k, x);
    proof {
        let v1 = views(list@);
        assert(v1 =~= v0.insert(k as int, x@));
        assert forall|i: int, j: int| 0 <= i < j < v1.len() implies text_before(#[trigger] v1[i], #[trigger] v1[j]) by {
            if j < k {
                assert(v1[i] == v0[i] && v1[j] == v0[j]);
            } else if j == k {
                assert(v1[i] == v0[i]);
            } else if i < k {
                assert(v1[i] == v0[i] && v1[j] == v0[j - 1]);
                assert(text_before(v0[i], x@));
                assert(text_before(x@, v0[k as int]));
                if j - 1 > k {
                    assert(text_before(v0[k as int], v0[j - 1]));
                    lemma_before_transitive(x@, v0[k as int], v0[j - 1]);
                }
                lemma_before_transitive(v0[i], x@, v0[j - 1]);
            } else if i == k {
                assert(v1[j] == v0[j - 1]);
                if j - 1 > k {
                    assert(text_before(v0[k as int], v0[j - 1]));
                    lemma_before_transitive(x@, v0[k as int], v0[j - 1]);
                }
            } else {
                assert(v1[i] == v0[i - 1] && v1[j] == v0[j - 1]);
            }
        }
        assert forall|s: Seq<char>| #[trigger] v1.contains(s) <==> (v0.contains(s) || s == x@) by {
            if v0.contains(s) {
                let w = choose|w: int| 0 <= w < v0.len() && v0[w] == s;
                if w < k {
                    assert(v1[w] == s);
                } else {
                    assert(v1[w + 1] == s);
                }
            }
            if s == x@ {
                assert(v1[k as int] == s);
            }
            if v1.contains(s) {
                let w = choose|w: int| 0 <= w < v1.len() && v1[w] == s;
                if w < k {
                    assert(v0[w] == s);
                } else if w > k {
                    assert(v0[w - 1] == s);
                }
            }
        }
    }
}

/// `s` is the pick of one of the slots.
pub open spec fn picked(slots: Seq<Option<String>>, s: Seq<char>) -> bool {
    exists|i: int| 0 <= i < slots.len() && #[trigger] slot_holds(slots[i], s)
}

/// The slot holds a pick with contents `s`.
pub open spec fn slot_holds(slot: Option<String>, s: Seq<char>) -> bool {
    match slot {
        Some(x) => x@ == s,
        None => false,
    }
}

proof fn lemma_picked_step(slots: Seq<Option<String>>, j: int, s: Seq<char>)
    requires
        0 <= j < slots.len(),
    ensures
        picked(slots.take(j + 1), s) <==> (picked(slots.take(j), s) || slot_holds(slots[j], s)),
{
    let t = slots.take(j);
    let t1 = slots.take(j + 1);
    if picked(t, s) {
        let w = choose|w: int| 0 <= w < t.len() && #[trigger] slot_holds(t[w], s);
        assert(t1[w] == t[w]);
    }
    if slot_holds(slots[j], s) {
        assert(t1[j] == slots[j]);
    }
    if picked(t1, s) {
        let w = choose|w: int| 0 <= w < t1.len() && #[trigger] slot_holds(t1[w], s);
        if w < j {
            assert(t[w] == t1[w]);
        }
    }
}

/// Adds the picks of `slots` to an ascending list.
fn insert_picks(list: &mut Vec<String>, slots: &[Option<String>])
    requires
        ascending(views(old(list)@)),
    ensures
        ascending(views(final(list)@)),
        forall|s: Seq<char>| #[trigger] views(final(list)@).contains(s) <==> (views(old(list)@).contains(s) || picked(
            slots@,
            s,
        )),
{
    let ghost v0 = views(list@);
    let mut j: usize = 0;
    while j < slots.len()
        invariant
            j <= slots@.len(),
            ascending(views(list@)),
            forall|s: Seq<char>| #[trigger] views(list@).contains(s) <==> (v0.contains(s) || picked(slots@.take(j as int), s)),
        decreases slots@.len() - j,
    {
        match &slots[j] {
            Some(x) => {
                insert_ascending(list, x.clone());
            },
            None => {},
        }
        proof {
            assert forall|s: Seq<char>| #[trigger] views(list@).contains(s) <==> (v0.contains(s) || picked(
                slots@.take(j + 1),
                s,
            )) by {
                lemma_picked_step(slots@, j as int, s);
            }
        }
        j = j + 1;
    }
    proof {
        assert(slots@.take(slots@.len() as int) =~= slots@);
    }
}

/// The proficient skills an expertise slot offers: fixed grants, skill
/// picks and custom skills, ascending, each once.
pub fn proficient_skills(fixed: &Vec<String>, picks: &[Option<String>], custom: &[Option<String>]) -> (r: Vec<String>)
    ensures
        ascending(views(r@)),
        forall|s: Seq<char>|
            #[trigger] views(r@).contains(s) <==> (views(fixed@).contains(s) || picked(picks@, s) || picked(custom@, s)),
{
    let mut r: Vec<String> = Vec::new();
    let mut i: usize = 0;
    while i < fixed.len()
        invariant
            i <= fixed@.len(),
            ascending(views(r@)),
            forall|s: Seq<char>| #[trigger] views(r@).contains(s) <==> views(fixed@.take(i as int)).contains(s),
        decreases fixed@.len() - i,
    {
        insert_ascending(&mut r, fixed[i].clone());
        proof {
            let t = views(fixed@.take(i as int));
            let t1 = views(fixed@.take(i + 1));
            assert(t1 =~= t.push(fixed@[i as int]@));
            assert forall|s: Seq<char>| #[trigger] t1.contains(s) <==> (t.contains(s) || s == fixed@[i as int]@) by {
                if t.contains(s) {
                    let w = choose|w: int| 0 <= w < t.len() && t[w] == s;
                    assert(t1[w] == s);
                }
                if s == fixed@[i as int]@ {
                    assert(t1[i as int] == s);
                }
                if t1.contains(s) {
                    let w = choose|w: int| 0 <= w < t1.len() && t1[w] == s;
                    if w < i {
                        assert(t[w] == s);
                    }
                }
            }
        }
        i = i + 1;
    }
    proof {
        assert(fixed@.take(fixed@.len() as int) =~= fixed@);
    }
    insert_picks(&mut r, picks);
    insert_picks(&mut r, custom);
    r
}

/// An ascending list is fixed by what it contains: two ascending lists with
/// the same members are equal.
pub proof fn lemma_ascending_unique(a: Seq<Seq<char>>, b: Seq<Seq<char>>)
    requires
        ascending(a),
        ascending(b),
        forall|s: Seq<char>| #![trigger a.contains(s)] #![trigger b.contains(s)] a.contains(s) <==> b.contains(s),
    ensures
        a == b,
    decreases a.len(),
{
    if a.len() == 0 {
        if b.len() > 0 {
            assert(b.contains(b[0]));
            assert(a.contains(b[0]));
        }
        assert(a =~= b);
    } else if b.len() == 0 {
        assert(a.contains(a[0]));
        assert(b.contains(a[0]));
    } else {
        assert(a.contains(a[0]));
        assert(b.contains(a[0]));
        assert(b.contains(b[0]));
        assert(a.contains(b[0]));
        let wa = choose|w: int| 0 <= w < b.len() && b[w] == a[0];
        let wb = choose|w: int| 0 <= w < a.len() && a[w] == b[0];
        if a[0] != b[0] {
            assert(wa != 0);
            assert(wb != 0);
            assert(text_before(b[0], b[wa]));
            assert(text_before(a[0], a[wb]));
            lemma_before_asymmetric(a[0], b[0]);
        }
        let ra = a.drop_first();
        let rb = b.drop_first();
        assert forall|s: Seq<char>| #![trigger ra.contains(s)] #![trigger rb.contains(s)] ra.contains(s) <==> rb.contains(s) by {
            if ra.contains(s) {
                let w = choose|w: int| 0 <= w < ra.len() && ra[w] == s;
                assert(a[w + 1] == s);
                assert(text_before(a[0], a[w + 1]));
                lemma_before_irreflexive(s);
                assert(a.contains(s));
                assert(b.contains(s));
                let v = choose|v: int| 0 <= v < b.len() && b[v] == s;
                assert(v != 0);
                assert(rb[v - 1] == s);
            }
            if rb.contains(s) {
                let w = choose|w: int| 0 <= w < rb.len() && rb[w] == s;
                assert(b[w + 1] == s);
                assert(text_before(b[0], b[w + 1]));
                lemma_before_irreflexive(s);
                assert(b.contains(s));
                assert(a.contains(s));
                let v = choose|v: int| 0 <= v < a.len() && a[v] == s;
                assert(v != 0);
                assert(ra[v - 1] == s);
            }
        }
        assert forall|i: int, j: int| 0 <= i < j < ra.len() implies text_before(#[trigger] ra[i], #[trigger] ra[j]) by {
            assert(ra[i] == a[i + 1] && ra[j] == a[j + 1]);
        }
        assert forall|i: int, j: int| 0 <= i < j < rb.len() implies text_before(#[trigger] rb[i], #[trigger] rb[j]) by {
            assert(rb[i] == b[i + 1] && rb[j] == b[j + 1]);
        }
        lemma_ascending_unique(ra, rb);
        assert(a =~= seq![a[0]] + ra);
        assert(b =~= seq![b[0]] + rb);
    }
}

} // verus!
