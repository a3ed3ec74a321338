//! The parts of the dependency graph that hold a cycle: Tarjan's strongly
//! connected components, kept when they have more than one cell or a cell
//! that reads itself.

use vstd::prelude::*;
use crate::address::{CellAddress, Addr, av, copy_addr, same_addr, lemma_addr_order};
use crate::addr_set::{views, strictly_sorted, set_view, lemma_set_view_facts, lemma_set_view_push, sorted_insert};
use crate::addr_map::{Entry, map_wf, mv, lemma_mv, map_find};
use crate::dependency::{readers, closed, is_reverse_closure};

verus! {

/// Every cell of the graph: the formula cells and the cells they read.
pub open spec fn graph_cells(g: Map<Addr, Set<Addr>>) -> Set<Addr> {
    Set::new(|a: Addr| g.contains_key(a) || exists|f: Addr| g.contains_key(f) && #[trigger] g[f].contains(a))
}

/// The cells named by the first `i` entries: their keys and their members.
pub open spec fn entry_cells(g: Seq<Entry>, i: int) -> Set<Addr> {
    Set::new(|a: Addr| exists|e: int| 0 <= e < i && (av(#[trigger] g[e].0) == a || set_view(g[e].1@).contains(a)))
}

/// The cells of the graph are those its entries name.
proof fn lemma_graph_cells_entries(g: Seq<Entry>)
    requires
        map_wf(g),
    ensures
        entry_cells(g, g.len() as int) == graph_cells(mv(g)),
{
    lemma_mv(g);
    assert forall|a: Addr| entry_cells(g, g.len() as int).contains(a) <==> graph_cells(mv(g)).contains(a) by {
        if entry_cells(g, g.len() as int).contains(a) {
            let e = choose|e: int| 0 <= e < g.len() && (av(#[trigger] g[e].0) == a || set_view(g[e].1@).contains(a));
            let f = av(g[e].0);
            assert(mv(g).contains_key(f));
            assert(mv(g)[f] == set_view(g[e].1@));
        }
        if graph_cells(mv(g)).contains(a) {
            if mv(g).contains_key(a) {
                let e = choose|e: int| 0 <= e < g.len() && av(g[e].0) == a;
                assert(entry_cells(g, g.len() as int).contains(a));
            } else {
                let f = choose|f: Addr| mv(g).contains_key(f) && #[trigger] mv(g)[f].contains(a);
                let e = choose|e: int| 0 <= e < g.len() && av(g[e].0) == f;
                assert(mv(g)[av(g[e].0)] == set_view(g[e].1@));
                assert(entry_cells(g, g.len() as int).contains(a));
            }
        }
    }
    assert(entry_cells(g, g.len() as int) =~= graph_cells(mv(g)));
}

proof fn lemma_entry_cells_finite(g: Seq<Entry>, i: int)
    requires
        0 <= i <= g.len(),
    ensures
        entry_cells(g, i).finite(),
    decreases i,
{
    if i == 0 {
        assert(entry_cells(g, 0) =~= Set::<Addr>::empty());
    } else {
        lemma_entry_cells_finite(g, i - 1);
        let members = set_view(g[i - 1].1@);
        vstd::seq_lib::seq_to_set_is_finite(views(g[i - 1].1@));
        let bigger = entry_cells(g, i - 1).insert(av(g[i - 1].0)).union(members);
        assert forall|a: Addr| entry_cells(g, i).contains(a) implies bigger.contains(a) by {
            let e = choose|e: int| 0 <= e < i && (av(#[trigger] g[e].0) == a || set_view(g[e].1@).contains(a));
            if e < i - 1 {
                assert(entry_cells(g, i - 1).contains(a));
            }
        }
        vstd::set_lib::lemma_len_subset(entry_cells(g, i), bigger);
    }
}

/// A well-formed graph names finitely many cells.
pub proof fn lemma_graph_cells_finite(g: Seq<Entry>)
    requires
        map_wf(g),
    ensures
        graph_cells(mv(g)).finite(),
{
    lemma_graph_cells_entries(g);
    lemma_entry_cells_finite(g, g.len() as int);
}

/// Every cell of the graph, in address order.
pub(crate) fn graph_nodes(g: &Vec<Entry>) -> (res: Vec<CellAddress>)
    requires
        map_wf(g@),
    ensures
        strictly_sorted(views(res@)),
        set_view(res@) == graph_cells(mv(g@)),
{
    let mut nodes: Vec<CellAddress> = Vec::new();
    let mut i: usize = 0;
    proof {
        assert(set_view(nodes@) =~= entry_cells(g@, 0));
    }
    while i < g.len()
        invariant
            i <= g@.len(),
            strictly_sorted(views(nodes@)),
            set_view(nodes@) == entry_cells(g@, i as int),
        decreases g@.len() - i,
    {
        sorted_insert(&mut nodes, copy_addr(&g[i].0));
        let members = &g[i].1;
        let ghost base = entry_cells(g@, i as int).insert(av(g@[i as int].0));
        let mut k: usize = 0;
        proof {
            assert(members@.subrange(0, 0) =~= Seq::<CellAddress>::empty());
            assert(set_view(members@.subrange(0, 0)) =~= Set::<Addr>::empty());
            assert(set_view(nodes@) =~= base.union(set_view(members@.subrange(0, 0))));
        }
        while k < members.len()
            invariant
                i < g@.len(),
                members == &g@[i as int].1,
                k <= members@.len(),
                strictly_sorted(views(nodes@)),
                set_view(nodes@) == base.union(set_view(members@.subrange(0, k as int))),
            decreases members@.len() - k,
        {
            sorted_insert(&mut nodes, copy_addr(&members[k]));
            proof {
                let pre = members@.subrange(0, k as int);
                let post = members@.subrange(0, k + 1);
                assert(post == pre.push(members@[k as int]));
                lemma_set_view_push(pre, members@[k as int]);
                assert(set_view(nodes@) =~= base.union(set_view(post)));
            }
            k += 1;
        }
        proof {
            assert(members@.subrange(0, members@.len() as int) =~= members@);
            assert forall|a: Addr| set_view(nodes@).contains(a) <==> entry_cells(g@, i + 1).contains(a) by {
                if entry_cells(g@, i + 1).contains(a) {
                    let e = choose|e: int| 0 <= e < i + 1 && (av(#[trigger] g@[e].0) == a || set_view(g@[e].1@).contains(a));
                    if e < i {
                        assert(entry_cells(g@, i as int).contains(a));
                    }
                }
                if entry_cells(g@, i as int).contains(a) {
                    let e = choose|e: int| 0 <= e < i && (av(#[trigger] g@[e].0) == a || set_view(g@[e].1@).contains(a));
                    assert(0 <= e < i + 1);
                }
                if set_view(nodes@).contains(a) && !entry_cells(g@, i as int).contains(a) {
                    assert(av(g@[i as int].0) == a || set_view(g@[i as int].1@).contains(a));
                }
            }
            assert(set_view(nodes@) =~= entry_cells(g@, i + 1));
        }
        i += 1;
    }
    proof {
        lemma_graph_cells_entries(g@);
    }
    nodes
}

/// Position of `a` in `nodes`, which holds it.
fn position_of(nodes: &Vec<CellAddress>, a: &CellAddress) -> (p: usize)
    requires
        set_view(nodes@).contains(av(*a)),
    ensures
        p < nodes@.len(),
        av(nodes@[p as int]) == av(*a),
{
    proof {
        lemma_set_view_facts(nodes@);
    }
    let mut i: usize = 0;
    while i < nodes.len()
        invariant
            i <= nodes@.len(),
            set_view(nodes@).contains(av(*a)),
            forall|j: int| 0 <= j < i ==> av(#[trigger] nodes@[j]) != av(*a),
        decreases nodes@.len() - i,
    {
        if same_addr(&nodes[i], a) {
            return i;
        }
        i += 1;
    }
    proof {
        lemma_set_view_facts(nodes@);
        let j = choose|j: int| 0 <= j < nodes@.len() && av(nodes@[j]) == av(*a);
        assert(av(nodes@[j]) != av(*a));
    }
    0
}

/// How many entries of `s` are `false`.
pub open spec fn count_false(s: Seq<bool>) -> nat
    decreases s.len(),
{
    if s.len() == 0 {
        0
    } else {
        count_false(s.drop_last()) + if s.last() { 0nat } else { 1nat }
    }
}

proof fn lemma_count_false_bound(s: Seq<bool>)
    ensures
        count_false(s) <= s.len(),
    decreases s.len(),
{
    if s.len() > 0 {
        lemma_count_false_bound(s.drop_last());
    }
}

/// Setting a `false` entry to `true` leaves one `false` entry fewer.
proof fn lemma_count_false_set(s: Seq<bool>, p: int)
    requires
        0 <= p < s.len(),
        !s[p],
    ensures
        count_false(s.update(p, true)) + 1 == count_false(s),
    decreases s.len(),
{
    let t = s.update(p, true);
    if p == s.len() - 1 {
        assert(t.drop_last() =~= s.drop_last());
    } else {
        assert(t.drop_last() =~= s.drop_last().update(p, true));
        lemma_count_false_set(s.drop_last(), p);
    }
}

/// Turning entries from `false` to `true` never adds `false` entries.
proof fn lemma_count_false_mono(a: Seq<bool>, b: Seq<bool>)
    requires
        a.len() == b.len(),
        forall|q: int| 0 <= q < a.len() && #[trigger] a[q] ==> b[q],
    ensures
        count_false(b) <= count_false(a),
    decreases a.len(),
{
    if a.len() > 0 {
        assert forall|q: int| 0 <= q < a.drop_last().len() && #[trigger] a.drop_last()[q] implies b.drop_last()[q] by {
            assert(a[q]);
        }
        lemma_count_false_mono(a.drop_last(), b.drop_last());
    }
}

/// The positions held by the components, one after another.
pub open spec fn flat(c: Seq<Vec<usize>>) -> Seq<usize>
    decreases c.len(),
{
    if c.len() == 0 {
        Seq::empty()
    } else {
        flat(c.drop_last()) + c.last()@
    }
}

/// The bookkeeping of the search: the lengths agree with the node count,
/// the counter numbers the visited nodes, and the positions on the stack and
/// in the components are visited nodes, none of them held twice.
pub open spec fn tarjan_inv(
    n: nat,
    counter: usize,
    visited: Seq<bool>,
    index: Seq<usize>,
    low: Seq<usize>,
    on_stack: Seq<bool>,
    stack: Seq<usize>,
    comps: Seq<Vec<usize>>,
) -> bool {
    &&& visited.len() == n
    &&& index.len() == n
    &&& low.len() == n
    &&& on_stack.len() == n
    &&& counter + count_false(visited) == n
    &&& (flat(comps) + stack).no_duplicates()
    &&& forall|t: int| 0 <= t < (flat(comps) + stack).len() ==> #[trigger] (flat(comps) + stack)[t] < n && visited[(flat(comps) + stack)[t] as int]
}

/// Moving the top of the stack to the end of the part before it keeps the
/// positions distinct.
proof fn lemma_move_last(a: Seq<usize>, b: Seq<usize>, m: usize)
    requires
        (a + b.push(m)).no_duplicates(),
    ensures
        (a.push(m) + b).no_duplicates(),
        (a.push(m) + b).to_set() == (a + b.push(m)).to_set(),
{
    let x = a + b.push(m);
    let y = a.push(m) + b;
    assert forall|i: int| 0 <= i < y.len() implies #[trigger] y[i] == x[if i < a.len() { i } else if i == a.len() { x.len() - 1 } else { i - 1 }] by {}
    assert forall|i: int, j: int| 0 <= i < y.len() && 0 <= j < y.len() && i != j implies y[i] != y[j] by {
        let fi = if i < a.len() { i } else if i == a.len() { x.len() - 1 } else { i - 1 };
        let fj = if j < a.len() { j } else if j == a.len() { x.len() - 1 } else { j - 1 };
        assert(y[i] == x[fi]);
        assert(y[j] == x[fj]);
    }
    assert forall|v: usize| y.to_set().contains(v) <==> x.to_set().contains(v) by {
        if y.to_set().contains(v) {
            let i = choose|i: int| 0 <= i < y.len() && y[i] == v;
            let fi = if i < a.len() { i } else if i == a.len() { x.len() - 1 } else { i - 1 };
            assert(y[i] == x[fi]);
        }
        if x.to_set().contains(v) {
            let i = choose|i: int| 0 <= i < x.len() && x[i] == v;
            let gi = if i < a.len() { i } else if i == x.len() - 1 { a.len() as int } else { i + 1 };
            assert(y[gi] == x[i]);
        }
    }
    assert(y.to_set() =~= x.to_set());
}

/// Tarjan's depth-first visit of the node at position `p`.
#[verifier::rlimit(50)]
fn tarjan_visit(
    g: &Vec<Entry>,
    nodes: &Vec<CellAddress>,
    p: usize,
    counter: &mut usize,
    visited: &mut Vec<bool>,
    index: &mut Vec<usize>,
    low: &mut Vec<usize>,
    on_stack: &mut Vec<bool>,
    stack: &mut Vec<usize>,
    comps: &mut Vec<Vec<usize>>,
    Ghost(unvisited): Ghost<nat>,
)
    requires
        unvisited == count_false(old(visited)@),
        map_wf(g@),
        set_view(nodes@) == graph_cells(mv(g@)),
        p < nodes@.len(),
        tarjan_inv(nodes@.len(), *old(counter), old(visited)@, old(index)@, old(low)@, old(on_stack)@, old(stack)@, old(comps)@),
        !old(visited)@[p as int],
    ensures
        tarjan_inv(nodes@.len(), *final(counter), final(visited)@, final(index)@, final(low)@, final(on_stack)@, final(stack)@, final(comps)@),
        final(visited)@[p as int],
        forall|q: int| 0 <= q < nodes@.len() && #[trigger] old(visited)@[q] ==> final(visited)@[q],
    decreases unvisited,
{
    let nn = nodes.len();
    let ghost n = nodes@.len();
    let ghost v0 = visited@;
    let c = *counter;
    proof {
        lemma_count_false_set(v0, p as int);
        assert(c + count_false(v0) == n);
        assert(c < n);
    }
    visited.set(p, true);
    let ghost v1 = visited@;
    index.set(p, c);
    low.set(p, c);
    *counter = c + 1;
    let ghost s0 = stack@;
    stack.push(p);
    on_stack.set(p, true);
    proof {
        let fc = flat(comps@);
        let x = fc + s0;
        assert(v1 == v0.update(p as int, true));
        assert(!x.contains(p)) by {
            if x.contains(p) {
                let t = choose|t: int| 0 <= t < x.len() && x[t] == p;
                assert(x[t] < n && v0[x[t] as int]);
            }
        }
        assert(fc + stack@ =~= x.push(p));
        assert forall|i: int, j: int| 0 <= i < x.push(p).len() && 0 <= j < x.push(p).len() && i != j implies x.push(p)[i] != x.push(p)[j] by {
            if i < x.len() && j < x.len() {
                assert(x[i] != x[j]);
            } else if i < x.len() {
                assert(x.contains(x[i]));
            } else if j < x.len() {
                assert(x.contains(x[j]));
            }
        }
        assert forall|t: int| 0 <= t < (fc + stack@).len() implies #[trigger] (fc + stack@)[t] < n && visited@[(fc + stack@)[t] as int] by {
            if t < x.len() {
                assert((fc + stack@)[t] == x[t]);
                assert(x[t] < n && v0[x[t] as int]);
            }
        }
    }
    match map_find(g, &nodes[p]) {
        None => {},
        Some(i) => {
            let succ = &g[i].1;
            let mut k: usize = 0;
            proof {
                lemma_mv(g@);
                lemma_set_view_facts(succ@);
            }
            while k < succ.len()
                invariant
                    map_wf(g@),
                    set_view(nodes@) == graph_cells(mv(g@)),
                    n == nodes@.len(),
                    p < n,
                    i < g@.len(),
                    succ == &g@[i as int].1,
                    mv(g@).contains_key(av(g@[i as int].0)),
                    mv(g@)[av(g@[i as int].0)] == set_view(succ@),
                    forall|t: int| 0 <= t < succ@.len() ==> set_view(succ@).contains(#[trigger] av(succ@[t])),
                    tarjan_inv(n, *counter, visited@, index@, low@, on_stack@, stack@, comps@),
                    v1 == v0.update(p as int, true),
                    count_false(v1) + 1 == count_false(v0),
                    unvisited == count_false(v0),
                    v1.len() == n,
                    forall|q: int| 0 <= q < n && #[trigger] v1[q] ==> visited@[q],
                    k <= succ@.len(),
                decreases succ@.len() - k,
            {
                proof {
                    let s = av(succ@[k as int]);
                    assert(set_view(succ@).contains(s));
                    assert(mv(g@)[av(g@[i as int].0)].contains(s));
                    assert(graph_cells(mv(g@)).contains(s));
                }
                let q = position_of(nodes, &succ[k]);
                if !visited[q] {
                    proof {
                        lemma_count_false_mono(v1, visited@);
                        assert(count_false(visited@) < count_false(v0));
                    }
                    let ghost before = visited@;
                    tarjan_visit(g, nodes, q, counter, visited, index, low, on_stack, stack, comps, Ghost(count_false(visited@)));
                    proof {
                        assert forall|r: int| 0 <= r < n && #[trigger] v1[r] implies visited@[r] by {
                            assert(before[r]);
                        }
                    }
                    let lq = low[q];
                    if lq < low[p] {
                        low.set(p, lq);
                    }
                } else if on_stack[q] {
                    let iq = index[q];
                    if iq < low[p] {
                        low.set(p, iq);
                    }
                }
                k += 1;
            }
        },
    }
    proof {
        assert(v1[p as int]);
    }
    if low[p] == index[p] {
        let mut component: Vec<usize> = Vec::new();
        let mut done = false;
        let ghost cb = comps@;
        let ghost fc = flat(comps@);
        proof {
            assert(fc + component@ + stack@ =~= fc + stack@);
        }
        while !done
            invariant
                n == nodes@.len(),
                p < n,
                comps@ == cb,
                fc == flat(cb),
                visited@.len() == n,
                (fc + component@ + stack@).no_duplicates(),
                forall|t: int| 0 <= t < (fc + component@ + stack@).len() ==> #[trigger] (fc + component@ + stack@)[t] < n
                    && visited@[(fc + component@ + stack@)[t] as int],
                tarjan_inv(n, *counter, visited@, index@, low@, on_stack@, Seq::<usize>::empty(), Seq::<Vec<usize>>::empty()),
                forall|q: int| 0 <= q < n && #[trigger] v1[q] ==> visited@[q],
                v1.len() == n,
                v1[p as int],
            decreases stack@.len() + if done { 0int } else { 1int },
        {
            let ghost sb = stack@;
            let ghost cpre = component@;
            match stack.pop() {
                None => {
                    done = true;
                },
                Some(m) => {
                    proof {
                        assert(sb == stack@.push(m));
                        let x0 = fc + cpre + sb;
                        assert(x0[x0.len() - 1] == m);
                        assert(x0[x0.len() - 1] < n);
                        lemma_move_last(fc + cpre, stack@, m);
                    }
                    on_stack.set(m, false);
                    component.push(m);
                    proof {
                        let x = fc + cpre + sb;
                        let y = fc + component@ + stack@;
                        assert(fc + cpre + stack@.push(m) =~= x);
                        assert((fc + cpre).push(m) + stack@ =~= y);
                        assert forall|t: int| 0 <= t < y.len() implies #[trigger] y[t] < n && visited@[y[t] as int] by {
                            assert(y.to_set().contains(y[t]));
                            let i = choose|i: int| 0 <= i < x.len() && x[i] == y[t];
                            assert(x[i] < n && visited@[x[i] as int]);
                        }
                    }
                    if m == p {
                        done = true;
                    }
                },
            }
        }
        comps.push(component);
        proof {
            assert(comps@.drop_last() =~= cb);
            assert(flat(comps@) == fc + component@);
            assert(flat(comps@) + stack@ =~= fc + component@ + stack@);
        }
    }
    proof {
        assert forall|q: int| 0 <= q < n && #[trigger] v0[q] implies visited@[q] by {
            assert(v1[q]);
        }
    }
}

/// Each position held by a component appears in `flat`.
proof fn lemma_flat_contains(c: Seq<Vec<usize>>, k: int, t: int)
    requires
        0 <= k < c.len(),
        0 <= t < c[k]@.len(),
    ensures
        flat(c).contains(c[k]@[t]),
    decreases c.len(),
{
    let d = c.drop_last();
    if k == c.len() - 1 {
        assert((flat(d) + c.last()@)[flat(d).len() + t] == c[k]@[t]);
    } else {
        assert(d[k] == c[k]);
        lemma_flat_contains(d, k, t);
        let i = choose|i: int| 0 <= i < flat(d).len() && flat(d)[i] == c[k]@[t];
        assert((flat(d) + c.last()@)[i] == c[k]@[t]);
    }
}

/// Distinct positions in `flat` make every component free of repeats and
/// any two components disjoint.
proof fn lemma_flat_disjoint(c: Seq<Vec<usize>>)
    requires
        flat(c).no_duplicates(),
    ensures
        forall|k: int| 0 <= k < c.len() ==> (#[trigger] c[k])@.no_duplicates(),
        forall|k1: int, k2: int, t1: int, t2: int|
            0 <= k1 < k2 < c.len() && 0 <= t1 < c[k1]@.len() && 0 <= t2 < c[k2]@.len() ==> #[trigger] c[k1]@[t1]
                != #[trigger] c[k2]@[t2],
    decreases c.len(),
{
    if c.len() > 0 {
        let d = c.drop_last();
        let l = c.last()@;
        let f = flat(d);
        assert(flat(c) == f + l);
        assert forall|i: int, j: int| 0 <= i < j < f.len() implies f[i] != f[j] by {
            assert((f + l)[i] == f[i] && (f + l)[j] == f[j]);
        }
        assert forall|i: int, j: int| 0 <= i < j < l.len() implies l[i] != l[j] by {
            assert((f + l)[f.len() + i] == l[i] && (f + l)[f.len() + j] == l[j]);
        }
        lemma_flat_disjoint(d);
        assert forall|k: int| 0 <= k < c.len() implies (#[trigger] c[k])@.no_duplicates() by {
            if k < c.len() - 1 {
                assert(c[k] == d[k]);
            }
        }
        assert forall|k1: int, k2: int, t1: int, t2: int|
            0 <= k1 < k2 < c.len() && 0 <= t1 < c[k1]@.len() && 0 <= t2 < c[k2]@.len() implies #[trigger] c[k1]@[t1]
                != #[trigger] c[k2]@[t2] by {
            assert(c[k1] == d[k1]);
            if k2 == c.len() - 1 {
                lemma_flat_contains(d, k1, t1);
                let i = choose|i: int| 0 <= i < f.len() && f[i] == c[k1]@[t1];
                assert((f + l)[i] == c[k1]@[t1]);
                assert((f + l)[f.len() + t2] == c[k2]@[t2]);
            } else {
                assert(c[k2] == d[k2]);
            }
        }
    }
}

proof fn lemma_count_false_all(s: Seq<bool>)
    requires
        forall|i: int| 0 <= i < s.len() ==> !#[trigger] s[i],
    ensures
        count_false(s) == s.len(),
    decreases s.len(),
{
    if s.len() > 0 {
        lemma_count_false_all(s.drop_last());
    }
}

/// Whether formula cell `a` reads itself.
pub(crate) fn reads_itself(g: &Vec<Entry>, a: &CellAddress) -> (res: bool)
    requires
        map_wf(g@),
    ensures
        res == (mv(g@).contains_key(av(*a)) && mv(g@)[av(*a)].contains(av(*a))),
{
    proof {
        lemma_mv(g@);
    }
    match map_find(g, a) {
        None => false,
        Some(i) => crate::addr_set::sorted_contains(&g[i].1, a),
    }
}

/// The cells of the positions in `comp`.
pub open spec fn cells_at(nodes: Seq<CellAddress>, comp: Seq<usize>) -> Set<Addr> {
    Set::new(|a: Addr| exists|t: int| 0 <= t < comp.len() && av(nodes[#[trigger] comp[t] as int]) == a)
}

/// `l` lists, in address order, cells of the graph `g` that form a cycle
/// part: more than one cell, or a single cell that reads itself.
pub open spec fn cycle_listing(g: Map<Addr, Set<Addr>>, l: Seq<CellAddress>) -> bool {
    &&& strictly_sorted(views(l))
    &&& l.len() > 0
    &&& set_view(l).subset_of(graph_cells(g))
    &&& (l.len() > 1 || (g.contains_key(av(l[0])) && g[av(l[0])].contains(av(l[0]))))
}

/// The strongly connected components of the graph that hold a cycle, in
/// the order Tarjan's search closes them, each in address order; no cell is
/// in two of them.
#[verifier::rlimit(50)]
pub fn cycle_components(g: &Vec<Entry>) -> (res: Vec<Vec<CellAddress>>)
    requires
        map_wf(g@),
    ensures
        forall|k: int| 0 <= k < res@.len() ==> #[trigger] cycle_listing(mv(g@), res@[k]@),
        forall|k1: int, k2: int|
            0 <= k1 < k2 < res@.len() ==> set_view(#[trigger] res@[k1]@).disjoint(set_view(#[trigger] res@[k2]@)),
{
    let nodes = graph_nodes(g);
    let n = nodes.len();
    let mut counter: usize = 0;
    let mut visited: Vec<bool> = Vec::new();
    let mut index: Vec<usize> = Vec::new();
    let mut low: Vec<usize> = Vec::new();
    let mut on_stack: Vec<bool> = Vec::new();
    let mut k: usize = 0;
    while k < n
        invariant
            n == nodes@.len(),
            k <= n,
            visited@.len() == k,
            index@.len() == k,
            low@.len() == k,
            on_stack@.len() == k,
            forall|t: int| 0 <= t < k ==> !#[trigger] visited@[t],
        decreases n - k,
    {
        visited.push(false);
        index.push(0);
        low.push(0);
        on_stack.push(false);
        k += 1;
    }
    let mut stack: Vec<usize> = Vec::new();
    let mut comps: Vec<Vec<usize>> = Vec::new();
    proof {
        lemma_count_false_all(visited@);
        assert(flat(comps@) + stack@ =~= Seq::<usize>::empty());
    }
    let mut p: usize = 0;
    while p < n
        invariant
            n == nodes@.len(),
            map_wf(g@),
            set_view(nodes@) == graph_cells(mv(g@)),
            tarjan_inv(n as nat, counter, visited@, index@, low@, on_stack@, stack@, comps@),
            p <= n,
        decreases n - p,
    {
        if !visited[p] {
            let ghost budget = count_false(visited@);
            tarjan_visit(g, &nodes, p, &mut counter, &mut visited, &mut index, &mut low, &mut on_stack, &mut stack, &mut comps, Ghost(budget));
        }
        p += 1;
    }
    proof {
        assert forall|i: int, j: int| 0 <= i < j < flat(comps@).len() implies flat(comps@)[i] != flat(comps@)[j] by {
            assert((flat(comps@) + stack@)[i] == flat(comps@)[i]);
            assert((flat(comps@) + stack@)[j] == flat(comps@)[j]);
        }
        lemma_flat_disjoint(comps@);
        assert forall|c: int, t: int| 0 <= c < comps@.len() && 0 <= t < comps@[c]@.len() implies #[trigger] comps@[c]@[t] < n by {
            lemma_flat_contains(comps@, c, t);
            let i = choose|i: int| 0 <= i < flat(comps@).len() && flat(comps@)[i] == comps@[c]@[t];
            assert((flat(comps@) + stack@)[i] == flat(comps@)[i]);
        }
        lemma_addr_order();
        lemma_set_view_facts(nodes@);
    }
    let mut out: Vec<Vec<CellAddress>> = Vec::new();
    let ghost mut src: Seq<int> = Seq::empty();
    let mut c: usize = 0;
    while c < comps.len()
        invariant
            n == nodes@.len(),
            map_wf(g@),
            strictly_sorted(views(nodes@)),
            set_view(nodes@) == graph_cells(mv(g@)),
            forall|a: int, t: int| 0 <= a < comps@.len() && 0 <= t < comps@[a]@.len() ==> #[trigger] comps@[a]@[t] < n,
            forall|a: int| 0 <= a < comps@.len() ==> (#[trigger] comps@[a])@.no_duplicates(),
            forall|k1: int, k2: int, t1: int, t2: int|
                0 <= k1 < k2 < comps@.len() && 0 <= t1 < comps@[k1]@.len() && 0 <= t2 < comps@[k2]@.len() ==> #[trigger] comps@[k1]@[t1]
                    != #[trigger] comps@[k2]@[t2],
            c <= comps@.len(),
            out@.len() == src.len(),
            forall|j: int| 0 <= j < src.len() ==> 0 <= #[trigger] src[j] < c,
            forall|j1: int, j2: int| 0 <= j1 < j2 < src.len() ==> #[trigger] src[j1] < #[trigger] src[j2],
            forall|j: int| 0 <= j < out@.len() ==> #[trigger] cycle_listing(mv(g@), out@[j]@),
            forall|j: int| 0 <= j < out@.len() ==> set_view(#[trigger] out@[j]@) == cells_at(nodes@, comps@[src[j]]@),
        decreases comps@.len() - c,
    {
        let comp = &comps[c];
        let keep = if comp.len() > 1 {
            true
        } else if comp.len() == 1 {
            reads_itself(g, &nodes[comp[0]])
        } else {
            false
        };
        if keep {
            let mut listing: Vec<CellAddress> = Vec::new();
            let mut t: usize = 0;
            proof {
                assert(set_view(listing@) =~= cells_at(nodes@, comp@.subrange(0, 0)));
            }
            while t < comp.len()
                invariant
                    n == nodes@.len(),
                    c < comps@.len(),
                    comp == &comps@[c as int],
                    forall|s: int| 0 <= s < comp@.len() ==> #[trigger] comp@[s] < n,
                    t <= comp@.len(),
                    strictly_sorted(views(listing@)),
                    set_view(listing@) == cells_at(nodes@, comp@.subrange(0, t as int)),
                decreases comp@.len() - t,
            {
                proof {
                    assert(comps@[c as int]@[t as int] < n);
                }
                sorted_insert(&mut listing, copy_addr(&nodes[comp[t]]));
                proof {
                    let pre = comp@.subrange(0, t as int);
                    let post = comp@.subrange(0, t + 1);
                    assert forall|a: Addr| set_view(listing@).contains(a) <==> cells_at(nodes@, post).contains(a) by {
                        if cells_at(nodes@, post).contains(a) {
                            let s = choose|s: int| 0 <= s < post.len() && av(nodes@[#[trigger] post[s] as int]) == a;
                            if s < t {
                                assert(pre[s] == post[s]);
                                assert(cells_at(nodes@, pre).contains(a));
                            }
                        }
                        if cells_at(nodes@, pre).contains(a) {
                            let s = choose|s: int| 0 <= s < pre.len() && av(nodes@[#[trigger] pre[s] as int]) == a;
                            assert(pre[s] == post[s]);
                        }
                        if a == av(nodes@[comp@[t as int] as int]) {
                            assert(post[t as int] == comp@[t as int]);
                        }
                    }
                    assert(set_view(listing@) =~= cells_at(nodes@, post));
                }
                t += 1;
            }
            proof {
                lemma_addr_order();
                lemma_set_view_facts(nodes@);
                assert(comp@.subrange(0, comp@.len() as int) =~= comp@);
                let l = listing@;
                lemma_set_view_facts(l);
                let q0 = comp@[0];
                let a0 = av(nodes@[q0 as int]);
                assert(cells_at(nodes@, comp@).contains(a0));
                assert(l.len() > 0);
                assert forall|a: Addr| set_view(l).contains(a) implies graph_cells(mv(g@)).contains(a) by {
                    let s = choose|s: int| 0 <= s < comp@.len() && av(nodes@[#[trigger] comp@[s] as int]) == a;
                    assert(comps@[c as int]@[s] < n);
                    assert(set_view(nodes@).contains(av(nodes@[comp@[s] as int])));
                }
                if comp@.len() > 1 {
                    let q1 = comp@[1];
                    let a1 = av(nodes@[q1 as int]);
                    assert(comps@[c as int]@[0] != comps@[c as int]@[1]);
                    assert(comps@[c as int]@[1] < n);
                    assert(a0 != a1) by {
                        if q0 < q1 {
                            assert(views(nodes@)[q0 as int] == a0 && views(nodes@)[q1 as int] == a1);
                        } else {
                            assert(views(nodes@)[q0 as int] == a0 && views(nodes@)[q1 as int] == a1);
                        }
                    }
                    assert(cells_at(nodes@, comp@).contains(a1));
                    if l.len() == 1 {
                        let i0 = choose|i: int| 0 <= i < l.len() && av(l[i]) == a0;
                        let i1 = choose|i: int| 0 <= i < l.len() && av(l[i]) == a1;
                    }
                } else {
                    assert(set_view(l).contains(a0));
                    let i0 = choose|i: int| 0 <= i < l.len() && av(l[i]) == a0;
                    if l.len() > 1 {
                        let i1: int = if i0 == 0 { 1 } else { 0 };
                        assert(set_view(l).contains(av(l[i1])));
                        let s = choose|s: int| 0 <= s < comp@.len() && av(nodes@[#[trigger] comp@[s] as int]) == av(l[i1]);
                        assert(views(l)[i0] != views(l)[i1]);
                    }
                    assert(av(l[0]) == a0);
                }
                assert(cycle_listing(mv(g@), l));
            }
            let ghost ob = out@;
            out.push(listing);
            proof {
                src = src.push(c as int);
                assert forall|j: int| 0 <= j < out@.len() implies #[trigger] cycle_listing(mv(g@), out@[j]@) by {
                    if j < ob.len() {
                        assert(out@[j] == ob[j]);
                    }
                }
                assert forall|j: int| 0 <= j < out@.len() implies set_view(#[trigger] out@[j]@) == cells_at(nodes@, comps@[src[j]]@) by {
                    if j < ob.len() {
                        assert(out@[j] == ob[j]);
                    }
                }
            }
        }
        c += 1;
    }
    proof {
        lemma_addr_order();
        assert forall|k1: int, k2: int|
            0 <= k1 < k2 < out@.len() implies set_view(#[trigger] out@[k1]@).disjoint(set_view(#[trigger] out@[k2]@)) by {
            assert forall|a: Addr| set_view(out@[k1]@).contains(a) implies !set_view(out@[k2]@).contains(a) by {
                let c1 = src[k1];
                let c2 = src[k2];
                assert(c1 < c2);
                let t1 = choose|t: int| 0 <= t < comps@[c1]@.len() && av(nodes@[#[trigger] comps@[c1]@[t] as int]) == a;
                if set_view(out@[k2]@).contains(a) {
                    let t2 = choose|t: int| 0 <= t < comps@[c2]@.len() && av(nodes@[#[trigger] comps@[c2]@[t] as int]) == a;
                    let q1 = comps@[c1]@[t1];
                    let q2 = comps@[c2]@[t2];
                    assert(q1 != q2);
                    assert(q1 < n && q2 < n);
                    assert(views(nodes@)[q1 as int] == a && views(nodes@)[q2 as int] == a);
                }
            }
        }
    }
    out
}


/// `s` holds every cell that a formula in it reads.
pub open spec fn forward_closed(deps: Map<Addr, Set<Addr>>, s: Set<Addr>) -> bool {
    forall|f: Addr, r: Addr| s.contains(f) && deps.contains_key(f) && #[trigger] deps[f].contains(r) ==> s.contains(r)
}

/// `x` reaches `y` along what formulas read, in zero or more steps: every
/// set that holds `x` and what its formulas read holds `y`.
pub open spec fn reaches(deps: Map<Addr, Set<Addr>>, x: Addr, y: Addr) -> bool {
    forall|s: Set<Addr>| s.contains(x) && #[trigger] forward_closed(deps, s) ==> s.contains(y)
}

/// The cells that `x` reaches and that reach `x`: its strongly connected
/// component.
pub open spec fn scc_of(deps: Map<Addr, Set<Addr>>, x: Addr) -> Set<Addr> {
    Set::new(|y: Addr| reaches(deps, x, y) && reaches(deps, y, x))
}

/// `n` is the least set that holds `start` and what its formulas read: the
/// cells `start` reaches.
pub open spec fn is_forward_closure(deps: Map<Addr, Set<Addr>>, start: Set<Addr>, n: Set<Addr>) -> bool {
    &&& start.subset_of(n)
    &&& forward_closed(deps, n)
    &&& forall|s: Set<Addr>| start.subset_of(s) && #[trigger] forward_closed(deps, s) ==> n.subset_of(s)
}

/// The least set of what `r` reaches is exactly what it reaches.
pub proof fn lemma_forward_closure_reaches(deps: Map<Addr, Set<Addr>>, r: Addr, n: Set<Addr>)
    requires
        is_forward_closure(deps, set![r], n),
    ensures
        forall|y: Addr| n.contains(y) == reaches(deps, r, y),
{
    assert forall|y: Addr| n.contains(y) == reaches(deps, r, y) by {
        if n.contains(y) {
            assert forall|s: Set<Addr>| s.contains(r) && #[trigger] forward_closed(deps, s) implies s.contains(y) by {
                assert(set![r].subset_of(s));
            }
        }
        if reaches(deps, r, y) {
            assert(set![r].subset_of(n));
            assert(n.contains(r) && forward_closed(deps, n));
        }
    }
}

/// The least reader-closed set holding `r` is exactly what reaches `r`.
pub proof fn lemma_reverse_closure_reaches(deps: Map<Addr, Set<Addr>>, r: Addr, n: Set<Addr>)
    requires
        is_reverse_closure(deps, set![r], n),
    ensures
        forall|y: Addr| n.contains(y) == reaches(deps, y, r),
{
    let t = Set::new(|z: Addr| reaches(deps, z, r));
    assert(t.contains(r));
    assert forall|x: Addr, f: Addr| t.contains(x) && #[trigger] readers(deps, x).contains(f) implies t.contains(f) by {
        assert forall|s: Set<Addr>| s.contains(f) && #[trigger] forward_closed(deps, s) implies s.contains(r) by {
            assert(deps[f].contains(x));
            assert(s.contains(x));
        }
    }
    assert(closed(deps, t));
    assert(set![r].subset_of(t));
    assert(n.subset_of(t));
    assert forall|y: Addr| n.contains(y) == reaches(deps, y, r) by {
        if reaches(deps, y, r) && !n.contains(y) {
            let s = Set::new(|z: Addr| !n.contains(z));
            assert forall|f: Addr, x: Addr| s.contains(f) && deps.contains_key(f) && #[trigger] deps[f].contains(x) implies s.contains(x) by {
                if n.contains(x) {
                    assert(readers(deps, x).contains(f));
                }
            }
            assert(forward_closed(deps, s));
            assert(s.contains(y));
            assert(set![r].subset_of(n));
        }
    }
}

} // verus!
