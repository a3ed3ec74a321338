//! Cycles of the dependency graph and evaluation orders: a cell lies on a
//! cycle exactly when the formula cells have no evaluation order.

use vstd::prelude::*;
use crate::address::Addr;
use crate::dependency::{readers, edge_set, is_topo_order, closed};
use crate::scc::{forward_closed, reaches, graph_cells};
use crate::topology::has_pred_in;

verus! {

/// `x` lies on a cycle: its formula reads it, or it and another cell reach
/// each other.
pub open spec fn on_cycle(deps: Map<Addr, Set<Addr>>, x: Addr) -> bool {
    ||| deps.contains_key(x) && deps[x].contains(x)
    ||| exists|y: Addr| y != x && #[trigger] reaches(deps, x, y) && reaches(deps, y, x)
}

pub proof fn lemma_reaches_refl(deps: Map<Addr, Set<Addr>>, x: Addr)
    ensures
        reaches(deps, x, x),
{
}

pub proof fn lemma_reaches_step(deps: Map<Addr, Set<Addr>>, x: Addr, y: Addr)
    requires
        deps.contains_key(x),
        deps[x].contains(y),
    ensures
        reaches(deps, x, y),
{
    assert forall|s: Set<Addr>| s.contains(x) && #[trigger] forward_closed(deps, s) implies s.contains(y) by {
        assert(deps[x].contains(y));
    }
}

pub proof fn lemma_reaches_trans(deps: Map<Addr, Set<Addr>>, x: Addr, y: Addr, z: Addr)
    requires
        reaches(deps, x, y),
        reaches(deps, y, z),
    ensures
        reaches(deps, x, z),
{
    assert forall|s: Set<Addr>| s.contains(x) && #[trigger] forward_closed(deps, s) implies s.contains(z) by {
        assert(s.contains(y));
    }
}

/// A cell without a formula reaches only itself.
pub proof fn lemma_leaf_reaches(deps: Map<Addr, Set<Addr>>, x: Addr, y: Addr)
    requires
        !deps.contains_key(x),
        reaches(deps, x, y),
    ensures
        y == x,
{
    let s = set![x];
    assert(forward_closed(deps, s));
}

/// A cell on a cycle is a formula cell.
pub proof fn lemma_on_cycle_formula(deps: Map<Addr, Set<Addr>>, x: Addr)
    requires
        on_cycle(deps, x),
    ensures
        deps.contains_key(x),
{
    if !deps.contains_key(x) {
        let y = choose|y: Addr| y != x && #[trigger] reaches(deps, x, y) && reaches(deps, y, x);
        lemma_leaf_reaches(deps, x, y);
    }
}

/// No evaluation order of the formula cells exists when a cell lies on a
/// cycle.
pub proof fn lemma_cycle_blocks_order(deps: Map<Addr, Set<Addr>>, x: Addr)
    requires
        on_cycle(deps, x),
    ensures
        forall|o: Seq<Addr>| !#[trigger] is_topo_order(o, deps.dom(), edge_set(deps, deps.dom())),
{
    let d = deps.dom();
    let e = edge_set(deps, d);
    lemma_on_cycle_formula(deps, x);
    assert forall|o: Seq<Addr>| !#[trigger] is_topo_order(o, d, e) by {
        if is_topo_order(o, d, e) {
            assert(o.to_set().contains(x));
            let i = choose|i: int| 0 <= i < o.len() && o[i] == x;
            if deps[x].contains(x) {
                assert(readers(deps, x).contains(x));
                assert(e.contains((o[i], o[i])));
            } else {
                let y = choose|y: Addr| y != x && #[trigger] reaches(deps, x, y) && reaches(deps, y, x);
                assert(on_cycle(deps, y));
                lemma_on_cycle_formula(deps, y);
                assert(o.to_set().contains(y));
                let j = choose|j: int| 0 <= j < o.len() && o[j] == y;
                lemma_order_bounds_reach(deps, o, i, j);
                lemma_order_bounds_reach(deps, o, j, i);
            }
        }
    }
}

/// What the cell at position `i` of an evaluation order reaches among the
/// formula cells stands no later than `i`.
proof fn lemma_order_bounds_reach(deps: Map<Addr, Set<Addr>>, o: Seq<Addr>, i: int, j: int)
    requires
        is_topo_order(o, deps.dom(), edge_set(deps, deps.dom())),
        0 <= i < o.len(),
        0 <= j < o.len(),
        reaches(deps, o[i], o[j]),
    ensures
        j <= i,
{
    let d = deps.dom();
    let e = edge_set(deps, d);
    let s = Set::new(|z: Addr| !deps.contains_key(z) || exists|k: int| 0 <= k <= i && o[k] == z);
    assert(s.contains(o[i]));
    assert forall|f: Addr, r: Addr| s.contains(f) && deps.contains_key(f) && #[trigger] deps[f].contains(r) implies s.contains(r) by {
        if deps.contains_key(r) {
            let k = choose|k: int| 0 <= k <= i && o[k] == f;
            assert(o.to_set().contains(r));
            let m = choose|m: int| 0 <= m < o.len() && o[m] == r;
            assert(readers(deps, r).contains(f));
            assert(e.contains((o[m], o[k])));
        }
    }
    assert(forward_closed(deps, s));
    assert(s.contains(o[j]));
    let k = choose|k: int| 0 <= k <= i && o[k] == o[j];
    assert(o.no_duplicates());
}

/// The cells `x` reaches.
pub open spec fn reach_set(deps: Map<Addr, Set<Addr>>, x: Addr) -> Set<Addr> {
    Set::new(|y: Addr| reaches(deps, x, y))
}

proof fn lemma_reach_set_finite(deps: Map<Addr, Set<Addr>>, x: Addr)
    requires
        graph_cells(deps).finite(),
    ensures
        reach_set(deps, x).finite(),
{
    let g = graph_cells(deps).insert(x);
    assert forall|f: Addr, r: Addr| g.contains(f) && deps.contains_key(f) && #[trigger] deps[f].contains(r) implies g.contains(r) by {
        assert(graph_cells(deps).contains(r));
    }
    assert(forward_closed(deps, g));
    assert(reach_set(deps, x).subset_of(g));
    vstd::set_lib::lemma_len_subset(reach_set(deps, x), g);
}

/// A cell of the nonempty finite set `n` whose reach set is smallest.
proof fn lemma_least_reach(deps: Map<Addr, Set<Addr>>, n: Set<Addr>) -> (x: Addr)
    requires
        graph_cells(deps).finite(),
        n.finite(),
        n.len() > 0,
    ensures
        n.contains(x),
        forall|y: Addr| n.contains(y) ==> reach_set(deps, x).len() <= #[trigger] reach_set(deps, y).len(),
    decreases n.len(),
{
    let a = n.choose();
    if n.len() == 1 {
        assert forall|y: Addr| n.contains(y) implies reach_set(deps, a).len() <= #[trigger] reach_set(deps, y).len() by {
            if y != a {
                assert(n.remove(a).contains(y));
                assert(n.remove(a).len() == 0);
            }
        }
        a
    } else {
        let m = lemma_least_reach(deps, n.remove(a));
        if reach_set(deps, a).len() <= reach_set(deps, m).len() {
            assert forall|y: Addr| n.contains(y) implies reach_set(deps, a).len() <= #[trigger] reach_set(deps, y).len() by {
                if y != a {
                    assert(n.remove(a).contains(y));
                }
            }
            a
        } else {
            assert forall|y: Addr| n.contains(y) implies reach_set(deps, m).len() <= #[trigger] reach_set(deps, y).len() by {
                if y != a {
                    assert(n.remove(a).contains(y));
                }
            }
            m
        }
    }
}

/// When no cell of a nonempty finite set lies on a cycle, some cell of the
/// set reads no cell of the set.
proof fn lemma_source_exists(deps: Map<Addr, Set<Addr>>, n: Set<Addr>) -> (s: Addr)
    requires
        graph_cells(deps).finite(),
        n.finite(),
        n.len() > 0,
        forall|x: Addr| n.contains(x) ==> !#[trigger] on_cycle(deps, x),
    ensures
        n.contains(s),
        !has_pred_in(n, edge_set(deps, n), s),
{
    let x = lemma_least_reach(deps, n);
    if has_pred_in(n, edge_set(deps, n), x) {
        let p = choose|p: Addr| n.contains(p) && edge_set(deps, n).contains((p, x));
        assert(readers(deps, p).contains(x));
        lemma_reaches_step(deps, x, p);
        lemma_reach_set_finite(deps, x);
        lemma_reach_set_finite(deps, p);
        assert(reach_set(deps, x).len() <= reach_set(deps, p).len());
        if reaches(deps, p, x) {
            if p == x {
                assert(on_cycle(deps, x));
            } else {
                assert(on_cycle(deps, x));
            }
        } else {
            assert forall|y: Addr| reach_set(deps, p).contains(y) implies reach_set(deps, x).remove(x).contains(y) by {
                lemma_reaches_trans(deps, x, p, y);
            }
            vstd::set_lib::lemma_len_subset(reach_set(deps, p), reach_set(deps, x).remove(x));
            lemma_reaches_refl(deps, x);
            assert(reach_set(deps, x).contains(x));
        }
    }
    x
}

/// A finite set of cells none of which lies on a cycle has an evaluation
/// order.
pub(crate) proof fn lemma_order_exists(deps: Map<Addr, Set<Addr>>, n: Set<Addr>)
    requires
        graph_cells(deps).finite(),
        n.finite(),
        forall|x: Addr| n.contains(x) ==> !#[trigger] on_cycle(deps, x),
    ensures
        exists|o: Seq<Addr>| is_topo_order(o, n, edge_set(deps, n)),
    decreases n.len(),
{
    if n.len() == 0 {
        let o = Seq::<Addr>::empty();
        assert(n =~= Set::<Addr>::empty());
        assert(o.to_set() =~= n);
        assert(is_topo_order(o, n, edge_set(deps, n)));
    } else {
        let s = lemma_source_exists(deps, n);
        let rest = n.remove(s);
        lemma_order_exists(deps, rest);
        let p = choose|p: Seq<Addr>| is_topo_order(p, rest, edge_set(deps, rest));
        let o = seq![s] + p;
        let e = edge_set(deps, n);
        assert(p.to_set().contains(s) == rest.contains(s));
        assert forall|i: int, j: int| 0 <= i < o.len() && 0 <= j < o.len() && o[i] == o[j] implies i == j by {
            if i > 0 && j > 0 {
                assert(o[i] == p[i - 1] && o[j] == p[j - 1]);
            } else if i > 0 {
                assert(p.to_set().contains(p[i - 1]));
            } else if j > 0 {
                assert(p.to_set().contains(p[j - 1]));
            }
        }
        assert(o.no_duplicates());
        assert forall|a: Addr| o.to_set().contains(a) <==> n.contains(a) by {
            if a == s {
                assert(o[0] == a);
            } else if n.contains(a) {
                assert(p.to_set().contains(a));
                let k = choose|k: int| 0 <= k < p.len() && p[k] == a;
                assert(o[k + 1] == a);
            } else if o.to_set().contains(a) {
                let k = choose|k: int| 0 <= k < o.len() && o[k] == a;
                assert(p.to_set().contains(p[k - 1]));
            }
        }
        assert(o.to_set() =~= n);
        assert forall|i: int, j: int| 0 <= i < o.len() && 0 <= j < o.len() && #[trigger] e.contains((o[i], o[j])) implies i < j by {
            if j == 0 {
                assert(n.contains(o[i]));
                assert(has_pred_in(n, e, s));
            } else if i > 0 {
                assert(o[i] == p[i - 1] && o[j] == p[j - 1]);
                assert(p.to_set().contains(p[i - 1]));
                assert(edge_set(deps, rest).contains((p[i - 1], p[j - 1])));
            }
        }
        assert(is_topo_order(o, n, e));
    }
}

/// With each of its cells, `u` holds every cell in the same strongly
/// connected part.
pub open spec fn scc_closed(deps: Map<Addr, Set<Addr>>, u: Set<Addr>) -> bool {
    forall|y: Addr, z: Addr| u.contains(y) && #[trigger] reaches(deps, y, z) && #[trigger] reaches(deps, z, y) ==> u.contains(z)
}

/// The edges of the dependency graph between cells of `n`.
pub open spec fn inner_edges(deps: Map<Addr, Set<Addr>>, n: Set<Addr>) -> Set<(Addr, Addr)> {
    Set::new(|p: (Addr, Addr)| edge_set(deps, n).contains(p) && n.contains(p.1))
}

/// In an evaluation order of the formula cells outside the part-closed `u`,
/// a cell that reaches the cell at `i` and that `i`'s cell reaches stands
/// no later than `i`.
proof fn lemma_outside_bounds(deps: Map<Addr, Set<Addr>>, u: Set<Addr>, o: Seq<Addr>, i: int, j: int)
    requires
        scc_closed(deps, u),
        is_topo_order(o, deps.dom().difference(u), inner_edges(deps, deps.dom().difference(u))),
        0 <= i < o.len(),
        0 <= j < o.len(),
        reaches(deps, o[i], o[j]),
        reaches(deps, o[j], o[i]),
    ensures
        j <= i,
{
    let n = deps.dom().difference(u);
    let e = inner_edges(deps, n);
    let x = o[i];
    let s = Set::new(|z: Addr| reaches(deps, x, z) && (!reaches(deps, z, x) || exists|k: int| 0 <= k <= i && o[k] == z));
    lemma_reaches_refl(deps, x);
    assert(s.contains(x));
    assert forall|f: Addr, r: Addr| s.contains(f) && deps.contains_key(f) && #[trigger] deps[f].contains(r) implies s.contains(r) by {
        lemma_reaches_step(deps, f, r);
        lemma_reaches_trans(deps, x, f, r);
        if reaches(deps, r, x) {
            lemma_reaches_trans(deps, f, r, x);
            let k = choose|k: int| 0 <= k <= i && o[k] == f;
            if r != x {
                if !deps.contains_key(r) {
                    lemma_leaf_reaches(deps, r, x);
                }
                if u.contains(r) {
                    assert(u.contains(x));
                    assert(o.to_set().contains(x));
                    assert(n.contains(x));
                }
                assert(n.contains(r));
                assert(o.to_set().contains(r));
                let m = choose|m: int| 0 <= m < o.len() && o[m] == r;
                assert(o.to_set().contains(f));
                assert(n.contains(f));
                assert(readers(deps, r).contains(f));
                assert(e.contains((o[m], o[k])));
            } else {
                assert(0 <= i <= i && o[i] == r);
            }
        }
    }
    assert(forward_closed(deps, s));
    assert(s.contains(o[j]));
    let k = choose|k: int| 0 <= k <= i && o[k] == o[j];
    assert(o.no_duplicates());
}

/// When `u` holds, with each cell, its whole strongly connected part, and
/// the formula cells outside `u` have an evaluation order, every cell on a
/// cycle is in `u`.
pub proof fn lemma_outside_order_covers(deps: Map<Addr, Set<Addr>>, u: Set<Addr>, o: Seq<Addr>)
    requires
        scc_closed(deps, u),
        is_topo_order(o, deps.dom().difference(u), inner_edges(deps, deps.dom().difference(u))),
    ensures
        forall|x: Addr| #[trigger] on_cycle(deps, x) ==> u.contains(x),
{
    let n = deps.dom().difference(u);
    let e = inner_edges(deps, n);
    assert forall|x: Addr| #[trigger] on_cycle(deps, x) implies u.contains(x) by {
        if !u.contains(x) {
            lemma_on_cycle_formula(deps, x);
            assert(n.contains(x));
            assert(o.to_set().contains(x));
            let i = choose|i: int| 0 <= i < o.len() && o[i] == x;
            if deps[x].contains(x) {
                assert(readers(deps, x).contains(x));
                assert(e.contains((o[i], o[i])));
            } else {
                let y = choose|y: Addr| y != x && #[trigger] reaches(deps, x, y) && reaches(deps, y, x);
                assert(on_cycle(deps, y));
                lemma_on_cycle_formula(deps, y);
                if u.contains(y) {
                    assert(u.contains(x));
                }
                assert(n.contains(y));
                assert(o.to_set().contains(y));
                let j = choose|j: int| 0 <= j < o.len() && o[j] == y;
                lemma_outside_bounds(deps, u, o, i, j);
                lemma_outside_bounds(deps, u, o, j, i);
            }
        }
    }
}

/// The formula cells have an evaluation order exactly when no cell lies on
/// a cycle.
pub proof fn lemma_order_iff_no_cycle(deps: Map<Addr, Set<Addr>>)
    requires
        graph_cells(deps).finite(),
    ensures
        (exists|o: Seq<Addr>| is_topo_order(o, deps.dom(), edge_set(deps, deps.dom()))) == !exists|x: Addr|
            on_cycle(deps, x),
{
    if exists|x: Addr| on_cycle(deps, x) {
        let x = choose|x: Addr| on_cycle(deps, x);
        lemma_cycle_blocks_order(deps, x);
    } else {
        assert(deps.dom().subset_of(graph_cells(deps)));
        vstd::set_lib::lemma_len_subset(deps.dom(), graph_cells(deps));
        lemma_order_exists(deps, deps.dom());
    }
}

/// A cell that reaches a cell of a set closed under readers is in the set.
proof fn lemma_closed_reach(deps: Map<Addr, Set<Addr>>, n: Set<Addr>, y: Addr, x: Addr)
    requires
        closed(deps, n),
        n.contains(x),
        reaches(deps, y, x),
    ensures
        n.contains(y),
{
    let out = Set::new(|z: Addr| !n.contains(z));
    assert forall|f: Addr, r: Addr| out.contains(f) && deps.contains_key(f) && #[trigger] deps[f].contains(r) implies out.contains(r) by {
        if n.contains(r) {
            assert(readers(deps, r).contains(f));
        }
    }
    assert(forward_closed(deps, out));
}

/// In an evaluation order of a set closed under readers, what the cell at
/// position `i` reaches within the set stands no later than `i`.
proof fn lemma_closed_order_bounds(deps: Map<Addr, Set<Addr>>, n: Set<Addr>, o: Seq<Addr>, i: int, j: int)
    requires
        closed(deps, n),
        is_topo_order(o, n, edge_set(deps, n)),
        0 <= i < o.len(),
        0 <= j < o.len(),
        reaches(deps, o[i], o[j]),
    ensures
        j <= i,
{
    let e = edge_set(deps, n);
    let s = Set::new(|z: Addr| !n.contains(z) || exists|k: int| 0 <= k <= i && o[k] == z);
    assert(o.to_set().contains(o[i]));
    assert(s.contains(o[i]));
    assert forall|f: Addr, r: Addr| s.contains(f) && deps.contains_key(f) && #[trigger] deps[f].contains(r) implies s.contains(r) by {
        if n.contains(r) {
            assert(readers(deps, r).contains(f));
            assert(n.contains(f));
            let k = choose|k: int| 0 <= k <= i && o[k] == f;
            assert(o.to_set().contains(r));
            let m = choose|m: int| 0 <= m < o.len() && o[m] == r;
            assert(e.contains((o[m], o[k])));
        }
    }
    assert(forward_closed(deps, s));
    assert(s.contains(o[j]));
    assert(o.to_set().contains(o[j]));
    let k = choose|k: int| 0 <= k <= i && o[k] == o[j];
    assert(o.no_duplicates());
}

/// A finite set of cells closed under readers has an evaluation order
/// exactly when none of its cells lies on a cycle.
pub proof fn lemma_closed_order_iff_no_cycle(deps: Map<Addr, Set<Addr>>, n: Set<Addr>)
    requires
        graph_cells(deps).finite(),
        n.finite(),
        closed(deps, n),
    ensures
        (exists|o: Seq<Addr>| is_topo_order(o, n, edge_set(deps, n))) == !exists|x: Addr| n.contains(x) && on_cycle(deps, x),
{
    if exists|x: Addr| n.contains(x) && on_cycle(deps, x) {
        let x = choose|x: Addr| n.contains(x) && on_cycle(deps, x);
        let e = edge_set(deps, n);
        assert forall|o: Seq<Addr>| !#[trigger] is_topo_order(o, n, e) by {
            if is_topo_order(o, n, e) {
                assert(o.to_set().contains(x));
                let i = choose|i: int| 0 <= i < o.len() && o[i] == x;
                if deps.contains_key(x) && deps[x].contains(x) {
                    assert(readers(deps, x).contains(x));
                    assert(e.contains((o[i], o[i])));
                } else {
                    let y = choose|y: Addr| y != x && #[trigger] reaches(deps, x, y) && reaches(deps, y, x);
                    lemma_closed_reach(deps, n, y, x);
                    assert(o.to_set().contains(y));
                    let j = choose|j: int| 0 <= j < o.len() && o[j] == y;
                    lemma_closed_order_bounds(deps, n, o, i, j);
                    lemma_closed_order_bounds(deps, n, o, j, i);
                }
            }
        }
    } else {
        lemma_order_exists(deps, n);
    }
}

} // verus!
