//! Finite maps from cell addresses to sets of cell addresses, kept as
//! vectors of entries in increasing key order.

use vstd::prelude::*;
use crate::address::{CellAddress, Addr, av, addr_lt, compare_addr, lemma_addr_order};
use crate::addr_set::{
    views, strictly_sorted, set_view, sorted_insert, sorted_remove, lemma_set_view_facts,
};

verus! {

pub type Entry = (CellAddress, Vec<CellAddress>);

pub open spec fn keys(m: Seq<Entry>) -> Seq<Addr> {
    m.map_values(|e: Entry| av(e.0))
}

/// Keys increase and every member set is an increasing vector.
pub open spec fn map_wf(m: Seq<Entry>) -> bool {
    &&& strictly_sorted(keys(m))
    &&& forall|i: int| 0 <= i < m.len() ==> strictly_sorted(views(#[trigger] m[i].1@))
}

pub open spec fn key_index(m: Seq<Entry>, a: Addr) -> int {
    choose|i: int| 0 <= i < m.len() && av(m[i].0) == a
}

/// The map a vector of entries stands for.
pub open spec fn mv(m: Seq<Entry>) -> Map<Addr, Set<Addr>> {
    Map::new(
        |a: Addr| exists|i: int| 0 <= i < m.len() && av(m[i].0) == a,
        |a: Addr| set_view(m[key_index(m, a)].1@),
    )
}

pub proof fn lemma_mv(m: Seq<Entry>)
    requires
        strictly_sorted(keys(m)),
    ensures
        forall|a: Addr|
            #[trigger] mv(m).contains_key(a) <==> exists|i: int| 0 <= i < m.len() && av(m[i].0) == a,
        forall|i: int| 0 <= i < m.len() ==> #[trigger] mv(m)[av(m[i].0)] == set_view(m[i].1@),
        forall|i: int| 0 <= i < m.len() ==> mv(m).contains_key(#[trigger] av(m[i].0)),
{
    lemma_addr_order();
    assert forall|i: int| 0 <= i < m.len() implies #[trigger] mv(m)[av(m[i].0)] == set_view(
        m[i].1@,
    ) by {
        let a = av(m[i].0);
        assert(mv(m).contains_key(a));
        let j = key_index(m, a);
        if j != i {
            if j < i {
                assert(addr_lt(keys(m)[j], keys(m)[i]));
            } else {
                assert(addr_lt(keys(m)[i], keys(m)[j]));
            }
        }
    }
}

/// Index of the first entry whose key is not below `k`.
fn entry_lower_bound(m: &Vec<Entry>, k: &CellAddress) -> (p: usize)
    requires
        strictly_sorted(keys(m@)),
    ensures
        p <= m@.len(),
        forall|j: int| 0 <= j < p ==> addr_lt(av(#[trigger] m@[j].0), av(*k)),
        p < m@.len() ==> !addr_lt(av(m@[p as int].0), av(*k)),
        forall|j: int| p < j < m@.len() ==> addr_lt(av(*k), av(#[trigger] m@[j].0)),
{
    let mut i: usize = 0;
    while i < m.len()
        invariant
            i <= m@.len(),
            strictly_sorted(keys(m@)),
            forall|j: int| 0 <= j < i ==> addr_lt(av(#[trigger] m@[j].0), av(*k)),
        decreases m@.len() - i,
    {
        if compare_addr(&m[i].0, k) >= 0 {
            proof {
                lemma_addr_order();
                assert forall|j: int| i < j < m@.len() implies addr_lt(av(*k), av(#[trigger] m@[j].0)) by {
                    assert(addr_lt(keys(m@)[i as int], keys(m@)[j]));
                }
            }
            return i;
        }
        i += 1;
    }
    i
}

/// Position of the entry for `k`, if the map has one.
pub fn map_find(m: &Vec<Entry>, k: &CellAddress) -> (res: Option<usize>)
    requires
        strictly_sorted(keys(m@)),
    ensures
        match res {
            Some(i) => i < m@.len() && av(m@[i as int].0) == av(*k),
            None => !mv(m@).contains_key(av(*k)),
        },
{
    let p = entry_lower_bound(m, k);
    proof {
        lemma_mv(m@);
        lemma_addr_order();
    }
    if p < m.len() && compare_addr(&m[p].0, k) == 0 {
        Some(p)
    } else {
        proof {
            if mv(m@).contains_key(av(*k)) {
                let i = choose|i: int| 0 <= i < m@.len() && av(m@[i].0) == av(*k);
                if i < p {
                } else if i > p {
                } else {
                }
            }
        }
        None
    }
}

proof fn lemma_insert_at(m: Seq<Entry>, p: int, e: Entry)
    requires
        map_wf(m),
        0 <= p <= m.len(),
        forall|j: int| 0 <= j < p ==> addr_lt(av(#[trigger] m[j].0), av(e.0)),
        forall|j: int| p <= j < m.len() ==> addr_lt(av(e.0), av(#[trigger] m[j].0)),
        strictly_sorted(views(e.1@)),
    ensures
        map_wf(m.insert(p, e)),
        mv(m.insert(p, e)) == mv(m).insert(av(e.0), set_view(e.1@)),
{
    let n = m.insert(p, e);
    lemma_addr_order();
    assert forall|i: int, j: int| 0 <= i < j < n.len() implies addr_lt(
        #[trigger] keys(n)[i],
        #[trigger] keys(n)[j],
    ) by {
        if j < p {
            assert(addr_lt(keys(m)[i], keys(m)[j]));
        } else if i < p && j == p {
        } else if i < p {
            assert(keys(n)[j] == keys(m)[j - 1]);
        } else if i == p {
            assert(keys(n)[j] == keys(m)[j - 1]);
        } else {
            assert(addr_lt(keys(m)[i - 1], keys(m)[j - 1]));
        }
    }
    assert forall|i: int| 0 <= i < n.len() implies strictly_sorted(views(#[trigger] n[i].1@)) by {
        if i < p {
            assert(n[i] == m[i]);
        } else if i > p {
            assert(n[i] == m[i - 1]);
        }
    }
    lemma_mv(m);
    lemma_mv(n);
    assert forall|a: Addr| mv(n).contains_key(a) <==> mv(m).insert(av(e.0), set_view(e.1@)).contains_key(a) by {
        if mv(n).contains_key(a) {
            let i = choose|i: int| 0 <= i < n.len() && av(n[i].0) == a;
            if i < p {
                assert(av(m[i].0) == a);
            } else if i > p {
                assert(av(m[i - 1].0) == a);
            }
        }
        if mv(m).contains_key(a) {
            let i = choose|i: int| 0 <= i < m.len() && av(m[i].0) == a;
            if i < p {
                assert(av(n[i].0) == a);
            } else {
                assert(av(n[i + 1].0) == a);
            }
        }
        if a == av(e.0) {
            assert(av(n[p].0) == a);
        }
    }
    assert forall|a: Addr| #[trigger] mv(n).contains_key(a) implies mv(n)[a] == mv(m).insert(
        av(e.0),
        set_view(e.1@),
    )[a] by {
        let i = choose|i: int| 0 <= i < n.len() && av(n[i].0) == a;
        assert(mv(n)[av(n[i].0)] == set_view(n[i].1@));
        if i < p {
            assert(mv(m)[av(m[i].0)] == set_view(m[i].1@));
        } else if i > p {
            assert(mv(m)[av(m[i - 1].0)] == set_view(m[i - 1].1@));
        }
    }
    assert(mv(n) =~= mv(m).insert(av(e.0), set_view(e.1@)));
}

proof fn lemma_remove_at(m: Seq<Entry>, p: int)
    requires
        map_wf(m),
        0 <= p < m.len(),
    ensures
        map_wf(m.remove(p)),
        mv(m.remove(p)) == mv(m).remove(av(m[p].0)),
{
    let n = m.remove(p);
    lemma_addr_order();
    assert forall|i: int, j: int| 0 <= i < j < n.len() implies addr_lt(
        #[trigger] keys(n)[i],
        #[trigger] keys(n)[j],
    ) by {
        if j < p {
            assert(addr_lt(keys(m)[i], keys(m)[j]));
        } else if i < p {
            assert(addr_lt(keys(m)[i], keys(m)[j + 1]));
        } else {
            assert(addr_lt(keys(m)[i + 1], keys(m)[j + 1]));
        }
    }
    assert forall|i: int| 0 <= i < n.len() implies strictly_sorted(views(#[trigger] n[i].1@)) by {
        if i < p {
            assert(n[i] == m[i]);
        } else {
            assert(n[i] == m[i + 1]);
        }
    }
    lemma_mv(m);
    lemma_mv(n);
    let k = av(m[p].0);
    assert forall|a: Addr| mv(n).contains_key(a) <==> mv(m).remove(k).contains_key(a) by {
        if mv(n).contains_key(a) {
            let i = choose|i: int| 0 <= i < n.len() && av(n[i].0) == a;
            if i < p {
                assert(av(m[i].0) == a);
                assert(addr_lt(keys(m)[i], keys(m)[p]));
            } else {
                assert(av(m[i + 1].0) == a);
                assert(addr_lt(keys(m)[p], keys(m)[i + 1]));
            }
        }
        if mv(m).remove(k).contains_key(a) {
            let i = choose|i: int| 0 <= i < m.len() && av(m[i].0) == a;
            if i < p {
                assert(av(n[i].0) == a);
            } else {
                assert(i != p);
                assert(av(n[i - 1].0) == a);
            }
        }
    }
    assert forall|a: Addr| #[trigger] mv(n).contains_key(a) implies mv(n)[a] == mv(m).remove(k)[a] by {
        let i = choose|i: int| 0 <= i < n.len() && av(n[i].0) == a;
        assert(mv(n)[av(n[i].0)] == set_view(n[i].1@));
        if i < p {
            assert(mv(m)[av(m[i].0)] == set_view(m[i].1@));
        } else {
            assert(mv(m)[av(m[i + 1].0)] == set_view(m[i + 1].1@));
        }
    }
    assert(mv(n) =~= mv(m).remove(k));
}

/// Sets the members of `k` to `v`, replacing any previous entry.
pub fn map_insert(m: &mut Vec<Entry>, k: CellAddress, v: Vec<CellAddress>)
    requires
        map_wf(old(m)@),
        strictly_sorted(views(v@)),
    ensures
        map_wf(final(m)@),
        mv(final(m)@) == mv(old(m)@).insert(av(k), set_view(v@)),
{
    let p = entry_lower_bound(m, &k);
    proof {
        lemma_addr_order();
    }
    if p < m.len() && compare_addr(&m[p].0, &k) == 0 {
        let ghost before = m@;
        m.remove(p);
        proof {
            lemma_remove_at(before, p as int);
            assert(mv(m@) == mv(before).remove(av(k)));
        }
        let ghost middle = m@;
        m.insert(p, (k, v));
        proof {
            assert forall|j: int| 0 <= j < p implies addr_lt(av(#[trigger] middle[j].0), av(k)) by {
                assert(middle[j] == before[j]);
            }
            assert forall|j: int| p <= j < middle.len() implies addr_lt(av(k), av(#[trigger] middle[j].0)) by {
                assert(middle[j] == before[j + 1]);
            }
            lemma_insert_at(middle, p as int, (k, v));
            assert(mv(m@) =~= mv(before).insert(av(k), set_view(v@)));
        }
    } else {
        let ghost before = m@;
        m.insert(p, (k, v));
        proof {
            lemma_insert_at(before, p as int, (k, v));
        }
    }
}

/// Drops the entry of `k`, if any.
pub fn map_remove(m: &mut Vec<Entry>, k: &CellAddress)
    requires
        map_wf(old(m)@),
    ensures
        map_wf(final(m)@),
        mv(final(m)@) == mv(old(m)@).remove(av(*k)),
{
    match map_find(m, k) {
        Some(i) => {
            let ghost before = m@;
            m.remove(i);
            proof {
                lemma_remove_at(before, i as int);
            }
        },
        None => {
            proof {
                assert(mv(m@) =~= mv(m@).remove(av(*k)));
            }
        },
    }
}

/// Adds `x` to the members of `k`, creating the entry when needed.
pub fn map_add_member(m: &mut Vec<Entry>, k: &CellAddress, x: CellAddress)
    requires
        map_wf(old(m)@),
    ensures
        map_wf(final(m)@),
        mv(final(m)@) == mv(old(m)@).insert(
            av(*k),
            (if mv(old(m)@).contains_key(av(*k)) {
                mv(old(m)@)[av(*k)]
            } else {
                Set::empty()
            }).insert(av(x)),
        ),
{
    let ghost before = m@;
    proof {
        lemma_mv(before);
    }
    match map_find(m, k) {
        Some(i) => {
            let (key, mut members) = m.remove(i);
            proof {
                lemma_remove_at(before, i as int);
                assert(members@ == before[i as int].1@);
            }
            let ghost middle = m@;
            sorted_insert(&mut members, x);
            m.insert(i, (key, members));
            proof {
                assert forall|j: int| 0 <= j < i implies addr_lt(av(#[trigger] middle[j].0), av(key)) by {
                    assert(middle[j] == before[j]);
                    assert(addr_lt(keys(before)[j], keys(before)[i as int]));
                }
                assert forall|j: int| i <= j < middle.len() implies addr_lt(av(key), av(#[trigger] middle[j].0)) by {
                    assert(middle[j] == before[j + 1]);
                    assert(addr_lt(keys(before)[i as int], keys(before)[j + 1]));
                }
                lemma_insert_at(middle, i as int, (key, members));
                assert(mv(before)[av(*k)] == set_view(before[i as int].1@));
                assert(mv(m@) =~= mv(before).insert(av(*k), mv(before)[av(*k)].insert(av(x))));
            }
        },
        None => {
            let mut members: Vec<CellAddress> = Vec::new();
            proof {
                assert(set_view(members@) =~= Set::<Addr>::empty());
            }
            sorted_insert(&mut members, x);
            map_insert(m, crate::address::copy_addr(k), members);
        },
    }
}

/// Removes `x` from the members of `k`; an entry left empty is dropped.
pub fn map_remove_member(m: &mut Vec<Entry>, k: &CellAddress, x: &CellAddress)
    requires
        map_wf(old(m)@),
    ensures
        map_wf(final(m)@),
        mv(old(m)@).contains_key(av(*k)) ==> {
            let rest = mv(old(m)@)[av(*k)].remove(av(*x));
            mv(final(m)@) == if rest.is_empty() {
                mv(old(m)@).remove(av(*k))
            } else {
                mv(old(m)@).insert(av(*k), rest)
            }
        },
        !mv(old(m)@).contains_key(av(*k)) ==> mv(final(m)@) == mv(old(m)@),
{
    let ghost before = m@;
    proof {
        lemma_mv(before);
    }
    match map_find(m, k) {
        Some(i) => {
            let (key, mut members) = m.remove(i);
            proof {
                lemma_remove_at(before, i as int);
                assert(members@ == before[i as int].1@);
                assert(mv(before)[av(*k)] == set_view(before[i as int].1@));
            }
            let ghost middle = m@;
            sorted_remove(&mut members, x);
            if members.len() == 0 {
                proof {
                    lemma_set_view_facts(members@);
                    assert(set_view(members@) =~= Set::<Addr>::empty());
                    assert(mv(m@) == mv(before).remove(av(*k)));
                }
                return;
            }
            proof {
                lemma_set_view_facts(members@);
                assert(set_view(members@).contains(av(members@[0])));
            }
            m.insert(i, (key, members));
            proof {
                assert forall|j: int| 0 <= j < i implies addr_lt(av(#[trigger] middle[j].0), av(key)) by {
                    assert(middle[j] == before[j]);
                    assert(addr_lt(keys(before)[j], keys(before)[i as int]));
                }
                assert forall|j: int| i <= j < middle.len() implies addr_lt(av(key), av(#[trigger] middle[j].0)) by {
                    assert(middle[j] == before[j + 1]);
                    assert(addr_lt(keys(before)[i as int], keys(before)[j + 1]));
                }
                lemma_insert_at(middle, i as int, (key, members));
                assert(mv(m@) =~= mv(before).insert(av(*k), mv(before)[av(*k)].remove(av(*x))));
            }
        },
        None => {},
    }
}

} // verus!
