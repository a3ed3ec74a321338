//! Finite sets of cell addresses kept as strictly increasing vectors.

use vstd::prelude::*;
use crate::address::{CellAddress, Addr, av, addr_lt, compare_addr, copy_addr, lemma_addr_order};

verus! {

pub open spec fn views(s: Seq<CellAddress>) -> Seq<Addr> {
    s.map_values(|a: CellAddress| av(a))
}

pub open spec fn strictly_sorted(s: Seq<Addr>) -> bool {
    forall|i: int, j: int| 0 <= i < j < s.len() ==> addr_lt(#[trigger] s[i], #[trigger] s[j])
}

/// The set of addresses a vector holds.
pub open spec fn set_view(s: Seq<CellAddress>) -> Set<Addr> {
    views(s).to_set()
}

/// A vector is the canonical listing of `set`: increasing, and holding
/// exactly the members of `set`.
pub open spec fn lists(s: Seq<CellAddress>, set: Set<Addr>) -> bool {
    strictly_sorted(views(s)) && set_view(s) == set
}

pub proof fn lemma_views_push(s: Seq<CellAddress>, x: CellAddress)
    ensures
        views(s.push(x)) == views(s).push(av(x)),
{
    assert(views(s.push(x)) =~= views(s).push(av(x)));
}

pub proof fn lemma_push_to_set(s: Seq<Addr>, x: Addr)
    ensures
        s.push(x).to_set() == s.to_set().insert(x),
{
    assert forall|y: Addr| s.push(x).to_set().contains(y) <==> s.to_set().insert(x).contains(y) by {
        if s.push(x).to_set().contains(y) {
            let i = choose|i: int| 0 <= i < s.push(x).len() && s.push(x)[i] == y;
            if i < s.len() {
                assert(s[i] == y);
            }
        }
        if s.to_set().contains(y) {
            let i = choose|i: int| 0 <= i < s.len() && s[i] == y;
            assert(s.push(x)[i] == y);
        }
        if y == x {
            assert(s.push(x)[s.len() as int] == y);
        }
    }
    assert(s.push(x).to_set() =~= s.to_set().insert(x));
}

/// Appending an address adds it to the set the vector holds.
pub proof fn lemma_set_view_push(s: Seq<CellAddress>, x: CellAddress)
    ensures
        set_view(s.push(x)) == set_view(s).insert(av(x)),
{
    lemma_views_push(s, x);
    lemma_push_to_set(views(s), av(x));
}

pub proof fn lemma_set_view_contains(s: Seq<CellAddress>, x: Addr)
    ensures
        set_view(s).contains(x) <==> exists|i: int| 0 <= i < s.len() && av(s[i]) == x,
{
    if set_view(s).contains(x) {
        let i = choose|i: int| 0 <= i < views(s).len() && views(s)[i] == x;
        assert(av(s[i]) == x);
    }
    if exists|i: int| 0 <= i < s.len() && av(s[i]) == x {
        let i = choose|i: int| 0 <= i < s.len() && av(s[i]) == x;
        assert(views(s)[i] == x);
    }
}

pub proof fn lemma_set_view_facts(s: Seq<CellAddress>)
    ensures
        forall|x: Addr|
            #[trigger] set_view(s).contains(x) <==> exists|i: int| 0 <= i < s.len() && av(s[i]) == x,
        forall|i: int| 0 <= i < s.len() ==> set_view(s).contains(#[trigger] av(s[i])),
{
    assert forall|x: Addr|
        #[trigger] set_view(s).contains(x) <==> exists|i: int| 0 <= i < s.len() && av(s[i]) == x by {
        lemma_set_view_contains(s, x);
    }
    assert forall|i: int| 0 <= i < s.len() implies set_view(s).contains(#[trigger] av(s[i])) by {
        lemma_set_view_contains(s, av(s[i]));
    }
}

/// Two increasing listings of the same set are the same listing.
pub proof fn lemma_listing_unique(a: Seq<Addr>, b: Seq<Addr>)
    requires
        strictly_sorted(a),
        strictly_sorted(b),
        a.to_set() == b.to_set(),
    ensures
        a == b,
    decreases a.len() + b.len(),
{
    lemma_addr_order();
    if a.len() == 0 {
        if b.len() > 0 {
            assert(b.to_set().contains(b[0]));
        }
        assert(a =~= b);
    } else if b.len() == 0 {
        assert(a.to_set().contains(a[0]));
    } else {
        assert(a.to_set().contains(a[0]));
        assert(b.to_set().contains(b[0]));
        let ia = choose|i: int| 0 <= i < b.len() && b[i] == a[0];
        let ib = choose|i: int| 0 <= i < a.len() && a[i] == b[0];
        if a[0] != b[0] {
            assert(ia > 0 && ib > 0);
            assert(addr_lt(b[0], b[ia]));
            assert(addr_lt(a[0], a[ib]));
        }
        let a2 = a.drop_first();
        let b2 = b.drop_first();
        assert forall|x: Addr| a2.to_set().contains(x) <==> b2.to_set().contains(x) by {
            if a2.to_set().contains(x) {
                let i = choose|i: int| 0 <= i < a2.len() && a2[i] == x;
                assert(a[i + 1] == x);
                assert(addr_lt(a[0], a[i + 1]));
                assert(b.to_set().contains(x));
                let j = choose|j: int| 0 <= j < b.len() && b[j] == x;
                assert(j != 0);
                assert(b2[j - 1] == x);
            }
            if b2.to_set().contains(x) {
                let i = choose|i: int| 0 <= i < b2.len() && b2[i] == x;
                assert(b[i + 1] == x);
                assert(addr_lt(b[0], b[i + 1]));
                assert(a.to_set().contains(x));
                let j = choose|j: int| 0 <= j < a.len() && a[j] == x;
                assert(j != 0);
                assert(a2[j - 1] == x);
            }
        }
        assert(a2.to_set() =~= b2.to_set());
        lemma_listing_unique(a2, b2);
        assert(a =~= seq![a[0]] + a2);
        assert(b =~= seq![b[0]] + b2);
    }
}

/// Whether the increasing vector holds `a`.
pub fn sorted_contains(v: &Vec<CellAddress>, a: &CellAddress) -> (res: bool)
    ensures
        res == set_view(v@).contains(av(*a)),
{
    proof {
        lemma_set_view_facts(v@);
    }
    let mut i: usize = 0;
    while i < v.len()
        invariant
            i <= v@.len(),
            forall|j: int| 0 <= j < i ==> av(#[trigger] v@[j]) != av(*a),
        decreases v@.len() - i,
    {
        if compare_addr(&v[i], a) == 0 {
            proof {
                lemma_set_view_facts(v@);
                assert(set_view(v@).contains(av(v@[i as int])));
            }
            return true;
        }
        i += 1;
    }
    false
}

/// Index of the first element not below `a`.
fn lower_bound(v: &Vec<CellAddress>, a: &CellAddress) -> (p: usize)
    requires
        strictly_sorted(views(v@)),
    ensures
        p <= v@.len(),
        forall|j: int| 0 <= j < p ==> addr_lt(av(#[trigger] v@[j]), av(*a)),
        p < v@.len() ==> !addr_lt(av(v@[p as int]), av(*a)),
        forall|j: int| p < j < v@.len() ==> addr_lt(av(*a), av(#[trigger] v@[j])),
{
    proof {
        lemma_addr_order();
    }
    let mut i: usize = 0;
    while i < v.len()
        invariant
            i <= v@.len(),
            strictly_sorted(views(v@)),
            forall|j: int| 0 <= j < i ==> addr_lt(av(#[trigger] v@[j]), av(*a)),
        decreases v@.len() - i,
    {
        if compare_addr(&v[i], a) >= 0 {
            proof {
                lemma_addr_order();
                assert forall|j: int| i < j < v@.len() implies addr_lt(av(*a), av(#[trigger] v@[j])) by {
                    assert(addr_lt(views(v@)[i as int], views(v@)[j]));
                    assert(views(v@)[i as int] == av(v@[i as int]));
                    assert(views(v@)[j] == av(v@[j]));
                }
            }
            return i;
        }
        i += 1;
    }
    i
}

/// Adds `a` to an increasing vector, keeping it increasing.
pub fn sorted_insert(v: &mut Vec<CellAddress>, a: CellAddress)
    requires
        strictly_sorted(views(old(v)@)),
    ensures
        strictly_sorted(views(final(v)@)),
        set_view(final(v)@) == set_view(old(v)@).insert(av(a)),
{
    let p = lower_bound(v, &a);
    proof {
        lemma_addr_order();
        lemma_set_view_facts(v@);
    }
    if p < v.len() && compare_addr(&v[p], &a) == 0 {
        proof {
            assert(set_view(v@) =~= set_view(v@).insert(av(a)));
        }
        return;
    }
    let ghost before = v@;
    v.insert(p, a);
    proof {
        let after = v@;
        assert(after == before.insert(p as int, a));
        assert forall|i: int, j: int| 0 <= i < j < after.len() implies addr_lt(
            #[trigger] views(after)[i],
            #[trigger] views(after)[j],
        ) by {
            if i < p && j < p {
                assert(addr_lt(views(before)[i], views(before)[j]));
            } else if i < p && j == p {
            } else if i < p {
                assert(addr_lt(views(before)[i], views(before)[j - 1]));
            } else if i == p {
                assert(p < before.len());
            } else {
                assert(addr_lt(views(before)[i - 1], views(before)[j - 1]));
            }
        }
        lemma_set_view_facts(after);
        assert forall|x: Addr| set_view(after).contains(x) <==> set_view(before).insert(av(a)).contains(x) by {
            if set_view(after).contains(x) {
                let i = choose|i: int| 0 <= i < after.len() && av(after[i]) == x;
                if i < p {
                    assert(av(before[i]) == x);
                } else if i > p {
                    assert(av(before[i - 1]) == x);
                }
            }
            if set_view(before).contains(x) {
                let i = choose|i: int| 0 <= i < before.len() && av(before[i]) == x;
                if i < p {
                    assert(av(after[i]) == x);
                } else {
                    assert(av(after[i + 1]) == x);
                }
            }
            if x == av(a) {
                assert(av(after[p as int]) == x);
            }
        }
        assert(set_view(after) =~= set_view(before).insert(av(a)));
    }
}

/// Removes `a` from an increasing vector, keeping it increasing.
pub fn sorted_remove(v: &mut Vec<CellAddress>, a: &CellAddress)
    requires
        strictly_sorted(views(old(v)@)),
    ensures
        strictly_sorted(views(final(v)@)),
        set_view(final(v)@) == set_view(old(v)@).remove(av(*a)),
{
    let p = lower_bound(v, a);
    proof {
        lemma_addr_order();
        lemma_set_view_facts(v@);
    }
    if p < v.len() && compare_addr(&v[p], a) == 0 {
        let ghost before = v@;
        v.remove(p);
        proof {
            let after = v@;
            assert(after == before.remove(p as int));
            assert forall|i: int, j: int| 0 <= i < j < after.len() implies addr_lt(
                #[trigger] views(after)[i],
                #[trigger] views(after)[j],
            ) by {
                if j < p {
                    assert(addr_lt(views(before)[i], views(before)[j]));
                } else if i < p {
                    assert(addr_lt(views(before)[i], views(before)[j + 1]));
                } else {
                    assert(addr_lt(views(before)[i + 1], views(before)[j + 1]));
                }
            }
            lemma_set_view_facts(after);
            assert forall|x: Addr| set_view(after).contains(x) <==> set_view(before).remove(av(*a)).contains(x) by {
                if set_view(after).contains(x) {
                    let i = choose|i: int| 0 <= i < after.len() && av(after[i]) == x;
                    if i < p {
                        assert(av(before[i]) == x);
                        assert(addr_lt(x, av(*a)));
                    } else {
                        assert(av(before[i + 1]) == x);
                        assert(addr_lt(av(*a), x));
                    }
                }
                if set_view(before).remove(av(*a)).contains(x) {
                    let i = choose|i: int| 0 <= i < before.len() && av(before[i]) == x;
                    if i < p {
                        assert(av(after[i]) == x);
                    } else {
                        assert(i != p);
                        assert(av(after[i - 1]) == x);
                    }
                }
            }
            assert(set_view(after) =~= set_view(before).remove(av(*a)));
        }
    } else {
        proof {
            assert forall|x: Addr| set_view(v@).contains(x) implies x != av(*a) by {
                let i = choose|i: int| 0 <= i < v@.len() && av(v@[i]) == x;
                if i < p {
                } else if i == p {
                } else {
                }
            }
            assert(set_view(v@) =~= set_view(v@).remove(av(*a)));
        }
    }
}

/// Merges two increasing vectors into the increasing listing of their union.
pub fn merge_sorted(a: &Vec<CellAddress>, b: &Vec<CellAddress>) -> (res: Vec<CellAddress>)
    requires
        strictly_sorted(views(a@)),
        strictly_sorted(views(b@)),
    ensures
        strictly_sorted(views(res@)),
        set_view(res@) == set_view(a@).union(set_view(b@)),
{
    proof {
        lemma_addr_order();
        lemma_set_view_facts(a@);
        lemma_set_view_facts(b@);
    }
    let mut out: Vec<CellAddress> = Vec::new();
    let mut i: usize = 0;
    let mut j: usize = 0;
    while i < a.len() || j < b.len()
        invariant
            i <= a@.len(),
            j <= b@.len(),
            strictly_sorted(views(a@)),
            strictly_sorted(views(b@)),
            strictly_sorted(views(out@)),
            forall|x: Addr|
                set_view(a@).contains(x) <==> exists|k: int| 0 <= k < a@.len() && av(a@[k]) == x,
            forall|x: Addr|
                set_view(b@).contains(x) <==> exists|k: int| 0 <= k < b@.len() && av(b@[k]) == x,
            forall|x: Addr|
                #[trigger] set_view(out@).contains(x) <==> ((exists|k: int|
                    0 <= k < i && av(a@[k]) == x) || (exists|k: int| 0 <= k < j && av(b@[k]) == x)),
            out@.len() > 0 ==> (i < a@.len() ==> addr_lt(views(out@).last(), av(a@[i as int]))),
            out@.len() > 0 ==> (j < b@.len() ==> addr_lt(views(out@).last(), av(b@[j as int]))),
        decreases a@.len() + b@.len() - i - j,
    {
        let ghost before = out@;
        proof {
            lemma_addr_order();
            lemma_set_view_facts(before);
            lemma_set_view_facts(a@);
            lemma_set_view_facts(b@);
        }
        let take_a: bool;
        let take_b: bool;
        if i < a.len() && j < b.len() {
            let c = compare_addr(&a[i], &b[j]);
            take_a = c <= 0;
            take_b = c >= 0;
            proof {
                if take_a && take_b {
                    assert(av(a@[i as int]) == av(b@[j as int]));
                }
            }
        } else {
            take_a = i < a.len();
            take_b = j < b.len();
        }
        assert(take_a && take_b ==> av(a@[i as int]) == av(b@[j as int]));
        if take_a {
            out.push(copy_addr(&a[i]));
        } else {
            out.push(copy_addr(&b[j]));
        }
        proof {
            assert(out@ == before.push(out@.last()));
            lemma_set_view_facts(out@);
            let y = av(out@.last());
            assert forall|p: int, q: int| 0 <= p < q < out@.len() implies addr_lt(
                #[trigger] views(out@)[p],
                #[trigger] views(out@)[q],
            ) by {
                if q < before.len() {
                    assert(views(out@)[p] == views(before)[p]);
                    assert(views(out@)[q] == views(before)[q]);
                } else if p < before.len() - 1 {
                    assert(addr_lt(views(before)[p], views(before).last()));
                }
            }
        }
        let ghost old_i = i;
        let ghost old_j = j;
        if take_a {
            i += 1;
        }
        if take_b {
            j += 1;
        }
        proof {
            let y = av(out@.last());
            assert forall|x: Addr|
                #[trigger] set_view(out@).contains(x) <==> ((exists|k: int|
                    0 <= k < i && av(a@[k]) == x) || (exists|k: int| 0 <= k < j && av(b@[k]) == x)) by {
                if set_view(out@).contains(x) {
                    let k = choose|k: int| 0 <= k < out@.len() && av(out@[k]) == x;
                    if k < before.len() {
                        assert(out@[k] == before[k]);
                        assert(set_view(before).contains(x));
                    } else if take_a {
                        assert(av(a@[old_i as int]) == x);
                    } else {
                        assert(av(b@[old_j as int]) == x);
                    }
                }
                if exists|k: int| 0 <= k < i && av(a@[k]) == x {
                    let k = choose|k: int| 0 <= k < i && av(a@[k]) == x;
                    if k < old_i {
                        assert(set_view(before).contains(x));
                        let k2 = choose|k2: int| 0 <= k2 < before.len() && av(before[k2]) == x;
                        assert(out@[k2] == before[k2]);
                    } else {
                        assert(av(out@[before.len() as int]) == x);
                    }
                }
                if exists|k: int| 0 <= k < j && av(b@[k]) == x {
                    let k = choose|k: int| 0 <= k < j && av(b@[k]) == x;
                    if k < old_j {
                        assert(set_view(before).contains(x));
                        let k2 = choose|k2: int| 0 <= k2 < before.len() && av(before[k2]) == x;
                        assert(out@[k2] == before[k2]);
                    } else {
                        assert(av(out@[before.len() as int]) == x);
                    }
                }
            }
            if i < a@.len() {
                assert(addr_lt(views(a@)[old_i as int], views(a@)[i as int]) || old_i == i);
            }
            if j < b@.len() {
                assert(addr_lt(views(b@)[old_j as int], views(b@)[j as int]) || old_j == j);
            }
        }
    }
    proof {
        lemma_set_view_facts(out@);
        assert forall|x: Addr| set_view(out@).contains(x) <==> set_view(a@).union(set_view(b@)).contains(x) by {}
        assert(set_view(out@) =~= set_view(a@).union(set_view(b@)));
    }
    out
}

proof fn lemma_filter_step(a: Seq<CellAddress>, i: int, target: Set<Addr>, before: Set<Addr>, after: Set<Addr>)
    requires
        0 <= i < a.len(),
        forall|x: Addr| #[trigger] before.contains(x) <==> (exists|m: int| 0 <= m < i && views(a)[m] == x) && target.contains(x),
        target.contains(av(a[i])) ==> after == before.insert(av(a[i])),
        !target.contains(av(a[i])) ==> after == before,
    ensures
        forall|x: Addr| #[trigger] after.contains(x) <==> (exists|m: int| 0 <= m < i + 1 && views(a)[m] == x) && target.contains(x),
{
    assert forall|x: Addr| #[trigger] after.contains(x) <==> (exists|m: int| 0 <= m < i + 1 && views(a)[m] == x) && target.contains(x) by {
        if exists|m: int| 0 <= m < i + 1 && views(a)[m] == x {
            let m = choose|m: int| 0 <= m < i + 1 && views(a)[m] == x;
            if m < i {
                assert(exists|m2: int| 0 <= m2 < i && views(a)[m2] == x);
            } else {
                assert(x == av(a[i]));
            }
        }
        if (exists|m: int| 0 <= m < i && views(a)[m] == x) {
            let m = choose|m: int| 0 <= m < i && views(a)[m] == x;
            assert(0 <= m < i + 1 && views(a)[m] == x);
        }
        if after.contains(x) && !before.contains(x) {
            assert(x == av(a[i]));
            assert(views(a)[i] == x);
        }
    }
}

/// The cells of the increasing vector `a` that are in `b` (when `keep`) or
/// not in `b` (otherwise), in increasing order.
pub fn filter_sorted(a: &Vec<CellAddress>, b: &Vec<CellAddress>, keep: bool) -> (res: Vec<CellAddress>)
    requires
        strictly_sorted(views(a@)),
    ensures
        strictly_sorted(views(res@)),
        set_view(res@) == (if keep {
            set_view(a@).intersect(set_view(b@))
        } else {
            set_view(a@).difference(set_view(b@))
        }),
{
    let ghost target = if keep {
        set_view(a@).intersect(set_view(b@))
    } else {
        set_view(a@).difference(set_view(b@))
    };
    let mut out: Vec<CellAddress> = Vec::new();
    let mut i: usize = 0;
    while i < a.len()
        invariant
            i <= a@.len(),
            strictly_sorted(views(a@)),
            strictly_sorted(views(out@)),
            target == (if keep {
                set_view(a@).intersect(set_view(b@))
            } else {
                set_view(a@).difference(set_view(b@))
            }),
            forall|t: int, m: int|
                0 <= t < out@.len() && i <= m < a@.len() ==> addr_lt(#[trigger] views(out@)[t], #[trigger] views(a@)[m]),
            forall|x: Addr| #[trigger] set_view(out@).contains(x) <==> (exists|m: int| 0 <= m < i && views(a@)[m] == x)
                && target.contains(x),
        decreases a@.len() - i,
    {
        proof {
            lemma_set_view_facts(a@);
            lemma_set_view_facts(b@);
        }
        let inside = sorted_contains(b, &a[i]);
        let ghost prev = out@;
        if inside == keep {
            out.push(copy_addr(&a[i]));
            proof {
                lemma_views_push(prev, out@.last());
                assert(out@ == prev.push(out@.last()));
                lemma_set_view_push(prev, out@.last());
                assert forall|t1: int, t2: int| 0 <= t1 < t2 < out@.len() implies addr_lt(#[trigger] views(out@)[t1], #[trigger] views(out@)[t2]) by {
                    assert(views(out@)[t1] == views(prev)[t1]);
                    if t2 < prev.len() {
                        assert(views(out@)[t2] == views(prev)[t2]);
                    } else {
                        assert(addr_lt(views(prev)[t1], views(a@)[i as int]));
                    }
                }
                assert forall|t: int, m: int|
                    0 <= t < out@.len() && i + 1 <= m < a@.len() implies addr_lt(#[trigger] views(out@)[t], #[trigger] views(a@)[m]) by {
                    if t < prev.len() {
                        assert(views(out@)[t] == views(prev)[t]);
                    } else {
                        assert(views(out@)[t] == views(a@)[i as int]);
                    }
                }
                assert(set_view(a@).contains(av(a@[i as int])));
                assert(set_view(out@) == set_view(prev).insert(av(a@[i as int])));
                assert(target.contains(av(a@[i as int])));
                lemma_filter_step(a@, i as int, target, set_view(prev), set_view(out@));
            }
        } else {
            proof {
                assert(!target.contains(av(a@[i as int])));
                lemma_filter_step(a@, i as int, target, set_view(prev), set_view(out@));
            }
        }
        i += 1;
    }
    proof {
        lemma_set_view_facts(a@);
        assert forall|x: Addr| set_view(out@).contains(x) <==> target.contains(x) by {
            if target.contains(x) {
                assert(set_view(a@).contains(x));
                let m = choose|m: int| 0 <= m < a@.len() && av(a@[m]) == x;
                assert(views(a@)[m] == x);
            }
        }
        assert(set_view(out@) =~= target);
    }
    out
}

} // verus!
