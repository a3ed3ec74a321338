//! Evaluation order of a bounded part of the dependency graph: Kahn's
//! algorithm that always takes the least ready cell.

use vstd::prelude::*;
use crate::address::{CellAddress, Addr, av, addr_lt, copy_addr, same_addr, lemma_addr_order};
use crate::addr_set::{views, strictly_sorted, set_view, lemma_set_view_facts, sorted_contains, sorted_insert};
use crate::dependency::{
    FormulaDependencyEdge, FormulaDependencyIndex, FormulaDependencySubgraph, edge_views, edge_set, edges_sorted,
    is_topo_order, is_reverse_closure, SpreadsheetModel, snapshot_indexable, snapshot_formula,
    spec_lookup, formula_map, update_outcome, law_edit_update_matches_rebuild, law_update_matches_rebuild, reads_fail,
    snapshot_reads, readers,
};

use crate::cyclic::{on_cycle, lemma_closed_order_iff_no_cycle};
use crate::refs::FormulaDependencyError;

verus! {

/// Every predecessor of `x` along `e` is in `done`.
pub open spec fn ready(e: Set<(Addr, Addr)>, done: Set<Addr>, x: Addr) -> bool {
    forall|p: Addr| #[trigger] e.contains((p, x)) ==> done.contains(p)
}

/// The cells placed before position `k` of `o`.
pub open spec fn taken(o: Seq<Addr>, k: int) -> Set<Addr> {
    o.subrange(0, k).to_set()
}

/// `x` may stand at position `k` of `o`: a cell of `n` not placed before,
/// whose predecessors all are.
pub open spec fn can_follow(o: Seq<Addr>, k: int, n: Set<Addr>, e: Set<(Addr, Addr)>, x: Addr) -> bool {
    n.contains(x) && !taken(o, k).contains(x) && ready(e, taken(o, k), x)
}

/// Each cell of `o` is the least of the cells that may stand at its position.
pub open spec fn least_first(o: Seq<Addr>, n: Set<Addr>, e: Set<(Addr, Addr)>) -> bool {
    forall|k: int|
        0 <= k < o.len() ==> can_follow(o, k, n, e, #[trigger] o[k]) && forall|x: Addr|
            #[trigger] can_follow(o, k, n, e, x) ==> !addr_lt(x, o[k])
}

proof fn lemma_least_first_push(o: Seq<Addr>, n: Set<Addr>, e: Set<(Addr, Addr)>, x: Addr)
    requires
        least_first(o, n, e),
        can_follow(o, o.len() as int, n, e, x),
        forall|y: Addr| #[trigger] can_follow(o, o.len() as int, n, e, y) ==> !addr_lt(y, x),
    ensures
        least_first(o.push(x), n, e),
{
    let p = o.push(x);
    assert forall|k: int| 0 <= k < p.len() implies can_follow(p, k, n, e, #[trigger] p[k]) && forall|y: Addr|
        #[trigger] can_follow(p, k, n, e, y) ==> !addr_lt(y, p[k]) by {
        assert(p.subrange(0, k) =~= o.subrange(0, k));
        assert(taken(p, k) == taken(o, k));
        if k < o.len() {
            assert(p[k] == o[k]);
            assert forall|y: Addr| #[trigger] can_follow(p, k, n, e, y) implies !addr_lt(y, p[k]) by {
                assert(can_follow(o, k, n, e, y));
            }
        } else {
            assert forall|y: Addr| #[trigger] can_follow(p, k, n, e, y) implies !addr_lt(y, p[k]) by {
                assert(can_follow(o, o.len() as int, n, e, y));
            }
        }
    }
}

/// A least-first listing of all of `n` without repeats is a topological order.
proof fn lemma_least_first_is_topo(o: Seq<Addr>, n: Set<Addr>, e: Set<(Addr, Addr)>)
    requires
        least_first(o, n, e),
        o.no_duplicates(),
        o.to_set() == n,
    ensures
        is_topo_order(o, n, e),
{
    assert forall|i: int, j: int|
        0 <= i < o.len() && 0 <= j < o.len() && #[trigger] e.contains((o[i], o[j])) implies i < j by {
        assert(can_follow(o, j, n, e, o[j]));
        assert(taken(o, j).contains(o[i]));
        let t = choose|t: int| 0 <= t < o.subrange(0, j).len() && o.subrange(0, j)[t] == o[i];
        assert(o[t] == o[i]);
    }
}

/// The first position of `o` that holds a member of `r`.
proof fn lemma_first_member(o: Seq<Addr>, r: Set<Addr>, k: int) -> (i: int)
    requires
        0 <= k < o.len(),
        r.contains(o[k]),
    ensures
        0 <= i <= k,
        r.contains(o[i]),
        forall|j: int| 0 <= j < i ==> !r.contains(#[trigger] o[j]),
    decreases k,
{
    if exists|j: int| 0 <= j < k && r.contains(#[trigger] o[j]) {
        let j = choose|j: int| 0 <= j < k && r.contains(#[trigger] o[j]);
        lemma_first_member(o, r, j)
    } else {
        k
    }
}

/// Some predecessor of `y` along `e` lies in `r`.
pub open spec fn has_pred_in(r: Set<Addr>, e: Set<(Addr, Addr)>, y: Addr) -> bool {
    exists|p: Addr| r.contains(p) && e.contains((p, y))
}

/// When each cell of a nonempty part `r` of `n` has a predecessor in `r`,
/// `n` has no topological order.
proof fn lemma_blocked_has_no_order(n: Set<Addr>, e: Set<(Addr, Addr)>, r: Set<Addr>, x: Addr)
    requires
        r.subset_of(n),
        r.contains(x),
        forall|y: Addr| r.contains(y) ==> #[trigger] has_pred_in(r, e, y),
    ensures
        forall|o: Seq<Addr>| !#[trigger] is_topo_order(o, n, e),
{
    assert forall|o: Seq<Addr>| !#[trigger] is_topo_order(o, n, e) by {
        if is_topo_order(o, n, e) {
            assert(o.to_set().contains(x));
            let k = choose|k: int| 0 <= k < o.len() && o[k] == x;
            let i = lemma_first_member(o, r, k);
            let y = o[i];
            assert(has_pred_in(r, e, y));
            let p = choose|p: Addr| r.contains(p) && e.contains((p, y));
            assert(o.to_set().contains(p));
            let j = choose|j: int| 0 <= j < o.len() && o[j] == p;
            assert(e.contains((o[j], o[i])));
            assert(j < i);
            assert(r.contains(o[j]));
        }
    }
}

/// Whether every predecessor of `x` along `edges` is in `done`.
fn is_ready(edges: &Vec<FormulaDependencyEdge>, done: &Vec<CellAddress>, x: &CellAddress) -> (res: bool)
    ensures
        res == ready(edge_views(edges@).to_set(), set_view(done@), av(*x)),
{
    let ghost e = edge_views(edges@);
    let mut k: usize = 0;
    while k < edges.len()
        invariant
            k <= edges@.len(),
            e == edge_views(edges@),
            forall|q: int| 0 <= q < k && (#[trigger] e[q]).1 == av(*x) ==> set_view(done@).contains(e[q].0),
        decreases edges@.len() - k,
    {
        if same_addr(&edges[k].dependent, x) && !sorted_contains(done, &edges[k].source) {
            proof {
                assert(e[k as int] == (av(edges@[k as int].source), av(edges@[k as int].dependent)));
                assert(e.to_set().contains(e[k as int]));
            }
            return false;
        }
        proof {
            assert(e[k as int] == (av(edges@[k as int].source), av(edges@[k as int].dependent)));
        }
        k += 1;
    }
    proof {
        assert forall|p: Addr| #[trigger] e.to_set().contains((p, av(*x))) implies set_view(done@).contains(p) by {
            let q = choose|q: int| 0 <= q < e.len() && e[q] == (p, av(*x));
        }
    }
    true
}

/// Position of the least cell of `nodes` that is not in `done` and whose
/// predecessors all are.
fn next_ready(nodes: &Vec<CellAddress>, edges: &Vec<FormulaDependencyEdge>, done: &Vec<CellAddress>) -> (res: Option<usize>)
    ensures
        match res {
            Some(i) => i < nodes@.len() && !set_view(done@).contains(views(nodes@)[i as int]) && ready(
                edge_views(edges@).to_set(),
                set_view(done@),
                views(nodes@)[i as int],
            ) && forall|t: int|
                0 <= t < i ==> set_view(done@).contains(#[trigger] views(nodes@)[t]) || !ready(
                    edge_views(edges@).to_set(),
                    set_view(done@),
                    views(nodes@)[t],
                ),
            None => forall|t: int|
                0 <= t < nodes@.len() ==> set_view(done@).contains(#[trigger] views(nodes@)[t]) || !ready(
                    edge_views(edges@).to_set(),
                    set_view(done@),
                    views(nodes@)[t],
                ),
        },
{
    let mut i: usize = 0;
    while i < nodes.len()
        invariant
            i <= nodes@.len(),
            forall|t: int|
                0 <= t < i ==> set_view(done@).contains(#[trigger] views(nodes@)[t]) || !ready(
                    edge_views(edges@).to_set(),
                    set_view(done@),
                    views(nodes@)[t],
                ),
        decreases nodes@.len() - i,
    {
        proof {
            assert(views(nodes@)[i as int] == av(nodes@[i as int]));
        }
        if !sorted_contains(done, &nodes[i]) && is_ready(edges, done, &nodes[i]) {
            return Some(i);
        }
        i += 1;
    }
    None
}

/// An order of `nodes` in which every edge goes from an earlier to a later
/// cell, taking at each step the least cell whose predecessors are all
/// placed; `None` when the edges form a cycle.
#[verifier::rlimit(50)]
pub fn topological_order(nodes: &Vec<CellAddress>, edges: &Vec<FormulaDependencyEdge>) -> (res: Option<Vec<CellAddress>>)
    requires
        strictly_sorted(views(nodes@)),
        forall|p: (Addr, Addr)|
            #[trigger] edge_views(edges@).to_set().contains(p) ==> set_view(nodes@).contains(p.0)
                && set_view(nodes@).contains(p.1),
    ensures
        match res {
            Some(o) => is_topo_order(views(o@), set_view(nodes@), edge_views(edges@).to_set())
                && least_first(views(o@), set_view(nodes@), edge_views(edges@).to_set()),
            None => !exists|o: Seq<Addr>|
                is_topo_order(o, set_view(nodes@), edge_views(edges@).to_set()),
        },
{
    let ghost n = set_view(nodes@);
    let ghost e = edge_views(edges@).to_set();
    let mut order: Vec<CellAddress> = Vec::new();
    let mut done: Vec<CellAddress> = Vec::new();
    proof {
        lemma_addr_order();
        assert(views(order@) =~= Seq::<Addr>::empty());
        assert(set_view(done@) =~= Set::<Addr>::empty());
        assert(views(nodes@).no_duplicates());
        views(nodes@).unique_seq_to_set();
    }
    while order.len() < nodes.len()
        invariant
            n == set_view(nodes@),
            e == edge_views(edges@).to_set(),
            strictly_sorted(views(nodes@)),
            n.len() == nodes@.len(),
            forall|p: (Addr, Addr)| #[trigger] e.contains(p) ==> n.contains(p.0) && n.contains(p.1),
            order@.len() <= nodes@.len(),
            strictly_sorted(views(done@)),
            set_view(done@) == views(order@).to_set(),
            views(order@).no_duplicates(),
            views(order@).to_set().subset_of(n),
            least_first(views(order@), n, e),
        decreases nodes@.len() - order@.len(),
    {
        let ghost o = views(order@);
        proof {
            assert(o.subrange(0, o.len() as int) =~= o);
            assert(taken(o, o.len() as int) == set_view(done@));
            lemma_set_view_facts(nodes@);
        }
        match next_ready(nodes, edges, &done) {
            Some(i) => {
                let ghost x = views(nodes@)[i as int];
                proof {
                    lemma_addr_order();
                    assert(views(nodes@)[i as int] == av(nodes@[i as int]));
                    assert(n.contains(x));
                    assert(can_follow(o, o.len() as int, n, e, x));
                    assert forall|y: Addr| #[trigger] can_follow(o, o.len() as int, n, e, y) implies !addr_lt(y, x) by {
                        let t = choose|t: int| 0 <= t < nodes@.len() && av(nodes@[t]) == y;
                        assert(views(nodes@)[t] == y);
                        if t < i {
                        } else if t > i {
                            assert(addr_lt(views(nodes@)[i as int], views(nodes@)[t]));
                        }
                    }
                    lemma_least_first_push(o, n, e, x);
                }
                order.push(copy_addr(&nodes[i]));
                sorted_insert(&mut done, copy_addr(&nodes[i]));
                proof {
                    crate::addr_set::lemma_views_push(order@.drop_last(), order@.last());
                    assert(order@ == order@.drop_last().push(order@.last()));
                    assert(views(order@) == o.push(x));
                    crate::addr_set::lemma_push_to_set(o, x);
                    assert(!o.to_set().contains(x));
                    assert forall|a: int, b: int| 0 <= a < b < views(order@).len() implies views(order@)[a] != views(order@)[b] by {
                        if b == o.len() {
                            assert(o.to_set().contains(o[a]));
                        } else {
                            assert(views(order@)[a] == o[a] && views(order@)[b] == o[b]);
                        }
                    }
                }
            },
            None => {
                proof {
                    let d = set_view(done@);
                    vstd::seq_lib::seq_to_set_is_finite(views(nodes@));
                    if forall|x: Addr| n.contains(x) ==> d.contains(x) {
                        assert(n.subset_of(d));
                        vstd::set_lib::lemma_len_subset(n, d);
                        o.unique_seq_to_set();
                    }
                    let x = choose|x: Addr| n.contains(x) && !d.contains(x);
                    let r = n.difference(d);
                    assert forall|y: Addr| r.contains(y) implies #[trigger] has_pred_in(r, e, y) by {
                        let t = choose|t: int| 0 <= t < nodes@.len() && av(nodes@[t]) == y;
                        assert(views(nodes@)[t] == y);
                        assert(!ready(e, d, y));
                        let p = choose|p: Addr| e.contains((p, y)) && !d.contains(p);
                        assert(n.contains(p));
                        assert(r.contains(p));
                    }
                    lemma_blocked_has_no_order(n, e, r, x);
                }
                return None;
            },
        }
    }
    proof {
        let o = views(order@);
        vstd::seq_lib::seq_to_set_is_finite(views(nodes@));
        o.unique_seq_to_set();
        vstd::set_lib::lemma_subset_equality(o.to_set(), n);
        lemma_least_first_is_topo(o, n, e);
    }
    Some(order)
}

/// `sub` is what a change of the cells `changed` reaches: the changed cells
/// and every formula cell that depends on them, in address order; every
/// edge among them, ordered; and an evaluation order exactly when none of
/// them lies on a cycle.
pub open spec fn describes_affected(deps: Map<Addr, Set<Addr>>, changed: Set<Addr>, sub: FormulaDependencySubgraph) -> bool {
    let n = set_view(sub.nodes@);
    let e = edge_views(sub.edges@).to_set();
    &&& strictly_sorted(views(sub.nodes@))
    &&& is_reverse_closure(deps, changed, n)
    &&& edges_sorted(edge_views(sub.edges@))
    &&& e == edge_set(deps, n)
    &&& sub.cyclic == (sub.topological_order is None)
    &&& sub.cyclic == exists|x: Addr| n.contains(x) && on_cycle(deps, x)
    &&& match sub.topological_order {
        Some(o) => is_topo_order(views(o@), n, e) && least_first(views(o@), n, e),
        None => !exists|o: Seq<Addr>| is_topo_order(o, n, e),
    }
}

impl FormulaDependencyIndex {
    /// The changed cells and their complete reverse-dependent closure as a
    /// bounded topology; its order is `None` when the closure holds a cycle.
    pub fn affected_topology(&self, changed: &[CellAddress]) -> (res: FormulaDependencySubgraph)
        requires
            self.wf(),
        ensures
            describes_affected(self.deps(), set_view(changed@), res),
    {
        let nodes = self.reverse_closure(changed);
        let edges = self.edges_from(&nodes);
        proof {
            let n = set_view(nodes@);
            assert forall|p: (Addr, Addr)| #[trigger] edge_views(edges@).to_set().contains(p) implies n.contains(p.0)
                && n.contains(p.1) by {
                assert(edge_set(self.deps(), n).contains(p));
            }
        }
        let order = topological_order(&nodes, &edges);
        let cyclic = order.is_none();
        proof {
            let n = set_view(nodes@);
            vstd::seq_lib::seq_to_set_is_finite(views(nodes@));
            self.lemma_finite_graph();
            lemma_closed_order_iff_no_cycle(self.deps(), n);
        }
        FormulaDependencySubgraph { nodes, edges, cyclic, topological_order: order }
    }
}

/// Updating an index built from a workbook, for an edit that changes the
/// formulas of the cells `c` only, succeeds and leaves an index equal in both
/// directions to the one built from the edited workbook: the same formula
/// cells read the same cells, the same cells are read by the same formula
/// cells, and the subgraph it returns is the affected topology of `c` in it.
pub proof fn law_update_equals_rebuild(
    m0: SpreadsheetModel,
    m1: SpreadsheetModel,
    c: Set<Addr>,
    built: FormulaDependencyIndex,
    updated: FormulaDependencyIndex,
    res: Result<FormulaDependencySubgraph, FormulaDependencyError>,
    rebuilt: FormulaDependencyIndex,
)
    requires
        snapshot_indexable(m0),
        snapshot_indexable(m1),
        m0.sheets@.len() == m1.sheets@.len(),
        forall|i: int|
            0 <= i < m0.sheets@.len() ==> (#[trigger] m0.sheets@[i]).id@ == m1.sheets@[i].id@ && m0.sheets@[i].name@
                == m1.sheets@[i].name@,
        forall|a: Addr| !c.contains(a) ==> snapshot_formula(m0, a) == snapshot_formula(m1, a),
        built.wf(),
        spec_lookup(m0.sheets@) matches Ok(lk) && built.deps() == formula_map(m0, lk),
        updated.wf(),
        spec_lookup(m1.sheets@) matches Ok(lk) && update_outcome(built.deps(), updated.deps(), m1, lk, c, res),
        rebuilt.wf(),
        spec_lookup(m1.sheets@) matches Ok(lk) && rebuilt.deps() == formula_map(m1, lk),
    ensures
        res matches Ok(sub) && describes_affected(rebuilt.deps(), c, sub),
        updated.deps() == rebuilt.deps(),
        updated.rdeps() == rebuilt.rdeps(),
{
    law_edit_update_matches_rebuild(m0, m1, c);
    let lk = spec_lookup(m1.sheets@)->Ok_0;
    law_update_matches_rebuild(formula_map(m0, lk), m1, lk, c);
    assert(!(exists|a: Addr| c.contains(a) && reads_fail(#[trigger] snapshot_reads(m1, lk, a))));
    let d = updated.deps();
    assert(d == rebuilt.deps());
    updated.law_dependents_are_inverse();
    rebuilt.law_dependents_are_inverse();
    assert forall|s: Addr| #[trigger] updated.rdeps().contains_key(s) <==> rebuilt.rdeps().contains_key(s) by {
        if updated.rdeps().contains_key(s) && !rebuilt.rdeps().contains_key(s) {
            assert(readers(d, s).is_empty());
        }
        if rebuilt.rdeps().contains_key(s) && !updated.rdeps().contains_key(s) {
            assert(readers(d, s).is_empty());
        }
    }
    assert(updated.rdeps() =~= rebuilt.rdeps());
}

} // verus!
