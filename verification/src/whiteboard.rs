//! The plain vocabulary of whiteboard interaction: selection modes, snap
//! targets, connector anchors and spatial query results.

use vstd::prelude::*;
use crate::text::same_text;

verus! {

/// How a box selection combines with the current selection.
#[derive(Debug, Clone, Copy, PartialEq, Eq, Structural)]
pub enum SelectionMode {
    Replace,
    Add,
    Toggle,
}

/// The selected elements, in scene order.
#[derive(Debug, Clone, PartialEq, Eq, Default)]
pub struct WhiteboardSelection {
    pub element_ids: Vec<String>,
}

/// What a point snapped to.
#[derive(Debug, Clone, Copy, PartialEq, Eq)]
pub enum SnapTarget {
    Grid,
    ElementEdge,
}

/// Where a connector leaves or enters an element.
#[derive(Debug, Clone, Copy, PartialEq, Eq)]
pub enum ConnectorAnchor {
    Center,
    Top,
    Right,
    Bottom,
    Left,
}

/// The elements a spatial query found and what it cost.
#[derive(Debug, Clone, PartialEq, Eq)]
pub struct SpatialQuery {
    pub ids: Vec<String>,
    pub candidate_count: usize,
    pub cells_examined: usize,
}

/// The texts of a list of ids.
pub open spec fn id_views(ids: Seq<String>) -> Seq<Seq<char>> {
    ids.map_values(|s: String| s@)
}

/// The scene order a spatial index records for `id`: the value of its first
/// entry, or `usize::MAX` when it has none.
pub open spec fn order_of(order: Seq<(String, usize)>, id: Seq<char>) -> int
    decreases order.len(),
{
    if order.len() == 0 {
        usize::MAX as int
    } else if order[0].0@ == id {
        order[0].1 as int
    } else {
        order_of(order.drop_first(), id)
    }
}

/// The ids a selection starts from: none when it replaces, else the
/// current ones that still name elements.
pub open spec fn selection_base(current: Seq<Seq<char>>, valid: Set<Seq<char>>, mode: SelectionMode) -> Seq<Seq<char>> {
    (if mode == SelectionMode::Replace {
        Seq::empty()
    } else {
        current
    }).filter(|id: Seq<char>| valid.contains(id))
}

/// Holds of every id but `hit`.
pub open spec fn other_than(hit: Seq<char>) -> spec_fn(Seq<char>) -> bool {
    |id: Seq<char>| id != hit
}

/// One hit applied: toggled off when selection toggles and has it,
/// appended when it is new.
pub open spec fn selection_step(ids: Seq<Seq<char>>, hit: Seq<char>, mode: SelectionMode) -> Seq<Seq<char>> {
    if mode == SelectionMode::Toggle && ids.contains(hit) {
        ids.filter(other_than(hit))
    } else if !ids.contains(hit) {
        ids.push(hit)
    } else {
        ids
    }
}

/// The first `k` hits applied in turn.
pub open spec fn selection_hits(ids: Seq<Seq<char>>, hits: Seq<Seq<char>>, k: nat, mode: SelectionMode) -> Seq<Seq<char>>
    decreases k,
{
    if k == 0 || k > hits.len() {
        ids
    } else {
        selection_step(selection_hits(ids, hits, (k - 1) as nat, mode), hits[k - 1], mode)
    }
}

/// `x` placed into the order-sorted `sorted` after every id whose order is
/// not above its own.
pub open spec fn insert_by_order(sorted: Seq<Seq<char>>, x: Seq<char>, order: Seq<(String, usize)>) -> Seq<Seq<char>>
    decreases sorted.len(),
{
    if sorted.len() == 0 || order_of(order, sorted.last()) <= order_of(order, x) {
        sorted.push(x)
    } else {
        insert_by_order(sorted.drop_last(), x, order).push(sorted.last())
    }
}

/// `ids` sorted by scene order, ties kept in their first order.
pub open spec fn sort_by_order(ids: Seq<Seq<char>>, order: Seq<(String, usize)>) -> Seq<Seq<char>>
    decreases ids.len(),
{
    if ids.len() == 0 {
        ids
    } else {
        insert_by_order(sort_by_order(ids.drop_last(), order), ids.last(), order)
    }
}

/// The ids come in non-decreasing scene order.
pub open spec fn in_scene_order(ids: Seq<Seq<char>>, order: Seq<(String, usize)>) -> bool {
    forall|i: int, j: int| 0 <= i < j < ids.len() ==> order_of(order, #[trigger] ids[i]) <= order_of(order, #[trigger] ids[j])
}

proof fn lemma_insert_by_order(sorted: Seq<Seq<char>>, x: Seq<char>, order: Seq<(String, usize)>)
    requires
        in_scene_order(sorted, order),
    ensures
        in_scene_order(insert_by_order(sorted, x, order), order),
        insert_by_order(sorted, x, order).to_multiset() == sorted.to_multiset().insert(x),
    decreases sorted.len(),
{
    broadcast use vstd::seq_lib::group_to_multiset_ensures;
    if sorted.len() == 0 || order_of(order, sorted.last()) <= order_of(order, x) {
        let r = sorted.push(x);
        assert forall|i: int, j: int| 0 <= i < j < r.len() implies order_of(order, #[trigger] r[i]) <= order_of(order, #[trigger] r[j]) by {
            if j == r.len() - 1 && i < sorted.len() {
                assert(order_of(order, sorted[i]) <= order_of(order, sorted.last()));
            }
        }
    } else {
        let rest = sorted.drop_last();
        assert(in_scene_order(rest, order)) by {
            assert forall|i: int, j: int| 0 <= i < j < rest.len() implies order_of(order, #[trigger] rest[i]) <= order_of(order, #[trigger] rest[j]) by {
                assert(rest[i] == sorted[i] && rest[j] == sorted[j]);
            }
        }
        lemma_insert_by_order(rest, x, order);
        let inner = insert_by_order(rest, x, order);
        let r = inner.push(sorted.last());
        assert forall|i: int| 0 <= i < inner.len() implies order_of(order, #[trigger] inner[i]) <= order_of(order, sorted.last()) by {
            assert(inner.to_multiset().count(inner[i]) > 0);
            assert(inner.to_multiset() == rest.to_multiset().insert(x));
            if inner[i] != x {
                assert(rest.to_multiset().count(inner[i]) > 0);
                assert(rest.contains(inner[i]));
                let k = choose|k: int| 0 <= k < rest.len() && rest[k] == inner[i];
                assert(sorted[k] == rest[k]);
                assert(order_of(order, sorted[k]) <= order_of(order, sorted[sorted.len() - 1]));
            }
        }
        assert forall|i: int, j: int| 0 <= i < j < r.len() implies order_of(order, #[trigger] r[i]) <= order_of(order, #[trigger] r[j]) by {
            if j == r.len() - 1 {
                assert(r[i] == inner[i]);
            } else {
                assert(r[i] == inner[i] && r[j] == inner[j]);
            }
        }
        assert(sorted =~= rest.push(sorted.last()));
        assert(r.to_multiset() =~= sorted.to_multiset().insert(x));
    }
}

/// A selection comes out in scene order and holds the ids it was given,
/// each as often as given.
pub proof fn law_selection_in_scene_order(ids: Seq<Seq<char>>, order: Seq<(String, usize)>)
    ensures
        in_scene_order(sort_by_order(ids, order), order),
        sort_by_order(ids, order).to_multiset() == ids.to_multiset(),
    decreases ids.len(),
{
    broadcast use vstd::seq_lib::group_to_multiset_ensures;
    if ids.len() > 0 {
        law_selection_in_scene_order(ids.drop_last(), order);
        lemma_insert_by_order(sort_by_order(ids.drop_last(), order), ids.last(), order);
        assert(ids =~= ids.drop_last().push(ids.last()));
    }
}

/// Keeping only some ids of a list without repeats leaves a list without
/// repeats.
proof fn lemma_filter_keeps_distinct(ids: Seq<Seq<char>>, keep: spec_fn(Seq<char>) -> bool)
    requires
        ids.no_duplicates(),
    ensures
        ids.filter(keep).no_duplicates(),
    decreases ids.len(),
{
    if ids.len() > 0 {
        let rest = ids.drop_last();
        let x = ids.last();
        assert(rest.no_duplicates());
        lemma_filter_keeps_distinct(rest, keep);
        assert(ids =~= rest.push(x));
        rest.lemma_filter_push(x, keep);
        if keep(x) {
            assert(!rest.filter(keep).contains(x)) by {
                if rest.filter(keep).contains(x) {
                    rest.lemma_filter_contains_rev(keep, x);
                    let j = choose|j: int| 0 <= j < rest.len() && rest[j] == x;
                    assert(ids[j] == ids[ids.len() - 1]);
                }
            }
        }
    }
}

/// Applying hits one by one never lists an id twice.
proof fn lemma_hits_keep_distinct(ids: Seq<Seq<char>>, hits: Seq<Seq<char>>, k: nat, mode: SelectionMode)
    requires
        ids.no_duplicates(),
    ensures
        selection_hits(ids, hits, k, mode).no_duplicates(),
    decreases k,
{
    if k == 0 || k > hits.len() {
        assert(selection_hits(ids, hits, k, mode) == ids);
    } else {
        lemma_hits_keep_distinct(ids, hits, (k - 1) as nat, mode);
        let prev = selection_hits(ids, hits, (k - 1) as nat, mode);
        let hit = hits[k - 1];
        assert(selection_hits(ids, hits, k, mode) == selection_step(prev, hit, mode));
        if mode == SelectionMode::Toggle && prev.contains(hit) {
            lemma_filter_keeps_distinct(prev, other_than(hit));
        } else if !prev.contains(hit) {
            let r = prev.push(hit);
            assert forall|i: int, j: int| 0 <= i < r.len() && 0 <= j < r.len() && i != j implies r[i] != r[j] by {
                if j == prev.len() {
                    assert(prev[i] == r[i]);
                } else if i == prev.len() {
                    assert(prev[j] == r[j]);
                } else {
                    assert(prev[i] == r[i] && prev[j] == r[j]);
                }
            }
        }
    }
}

/// A box selection never lists an element twice, provided the selection it
/// extends or toggles listed none twice.
pub proof fn law_selection_has_no_duplicates(
    current: Seq<Seq<char>>,
    valid: Set<Seq<char>>,
    hits: Seq<Seq<char>>,
    order: Seq<(String, usize)>,
    mode: SelectionMode,
)
    requires
        mode == SelectionMode::Replace || current.no_duplicates(),
    ensures
        sort_by_order(selection_hits(selection_base(current, valid, mode), hits, hits.len(), mode), order).no_duplicates(),
{
    let start = if mode == SelectionMode::Replace { Seq::<Seq<char>>::empty() } else { current };
    lemma_filter_keeps_distinct(start, |id: Seq<char>| valid.contains(id));
    let picked = selection_hits(selection_base(current, valid, mode), hits, hits.len(), mode);
    lemma_hits_keep_distinct(selection_base(current, valid, mode), hits, hits.len(), mode);
    law_selection_in_scene_order(picked, order);
    picked.lemma_multiset_has_no_duplicates();
    sort_by_order(picked, order).lemma_multiset_has_no_duplicates_conv();
}

/// Whether `ids` holds the text of `id`.
fn holds_id(ids: &Vec<String>, id: &String) -> (res: bool)
    ensures
        res == id_views(ids@).contains(id@),
{
    let mut k: usize = 0;
    while k < ids.len()
        invariant
            k <= ids@.len(),
            forall|j: int| 0 <= j < k ==> ids@[j]@ != id@,
        decreases ids@.len() - k,
    {
        if same_text(ids[k].as_str(), id.as_str()) {
            proof {
                assert(id_views(ids@)[k as int] == id@);
            }
            return true;
        }
        k += 1;
    }
    proof {
        if id_views(ids@).contains(id@) {
            let j = choose|j: int| 0 <= j < id_views(ids@).len() && id_views(ids@)[j] == id@;
            assert(ids@[j]@ == id@);
        }
    }
    false
}

/// The scene order recorded for `id`.
fn order_lookup(order: &Vec<(String, usize)>, id: &String) -> (res: usize)
    ensures
        res as int == order_of(order@, id@),
{
    let mut k: usize = 0;
    proof {
        assert(order@.skip(0) =~= order@);
    }
    while k < order.len()
        invariant
            k <= order@.len(),
            order_of(order@, id@) == order_of(order@.skip(k as int), id@),
        decreases order@.len() - k,
    {
        proof {
            assert(order@.skip(k as int).drop_first() =~= order@.skip(k + 1));
            assert(order@.skip(k as int)[0] == order@[k as int]);
        }
        if same_text(order[k].0.as_str(), id.as_str()) {
            return order[k].1;
        }
        k += 1;
    }
    usize::MAX
}

/// `ids` without every copy of `id`.
fn without_id(ids: &Vec<String>, id: &String) -> (res: Vec<String>)
    ensures
        id_views(res@) == id_views(ids@).filter(other_than(id@)),
{
    let mut out: Vec<String> = Vec::new();
    let mut k: usize = 0;
    while k < ids.len()
        invariant
            k <= ids@.len(),
            id_views(out@) == id_views(ids@.subrange(0, k as int)).filter(other_than(id@)),
        decreases ids@.len() - k,
    {
        let ghost before = out@;
        proof {
            assert(id_views(ids@.subrange(0, k + 1)) =~= id_views(ids@.subrange(0, k as int)).push(ids@[k as int]@));
            id_views(ids@.subrange(0, k as int)).lemma_filter_push(ids@[k as int]@, other_than(id@));
        }
        if !same_text(ids[k].as_str(), id.as_str()) {
            out.push(ids[k].clone());
            proof {
                assert(id_views(out@) =~= id_views(before).push(ids@[k as int]@));
            }
        }
        k += 1;
    }
    proof {
        assert(ids@.subrange(0, ids@.len() as int) =~= ids@);
    }
    out
}

impl WhiteboardSelection {
    /// The selection after a box selection that hit `hits`, given the ids
    /// of the scene's elements and the scene order the spatial index
    /// records: replaced, extended or toggled by the hits, then in scene
    /// order.
    #[verifier::rlimit(50)]
    pub fn combine(&self, valid_ids: &Vec<String>, hits: &Vec<String>, order: &Vec<(String, usize)>, mode: SelectionMode) -> (res: Self)
        ensures
            id_views(res.element_ids@) == sort_by_order(
                selection_hits(
                    selection_base(id_views(self.element_ids@), id_views(valid_ids@).to_set(), mode),
                    id_views(hits@),
                    hits@.len(),
                    mode,
                ),
                order@,
            ),
    {
        let ghost valid = id_views(valid_ids@).to_set();
        let ghost start = if mode == SelectionMode::Replace {
            Seq::<Seq<char>>::empty()
        } else {
            id_views(self.element_ids@)
        };
        let mut ids: Vec<String> = Vec::new();
        if mode != SelectionMode::Replace {
            let mut k: usize = 0;
            while k < self.element_ids.len()
                invariant
                    mode != SelectionMode::Replace,
                    start == id_views(self.element_ids@),
                    valid == id_views(valid_ids@).to_set(),
                    k <= self.element_ids@.len(),
                    id_views(ids@) == id_views(self.element_ids@.subrange(0, k as int)).filter(|id: Seq<char>| valid.contains(id)),
                decreases self.element_ids@.len() - k,
            {
                let ghost before = ids@;
                let item = &self.element_ids[k];
                proof {
                    assert(id_views(self.element_ids@.subrange(0, k + 1)) =~= id_views(self.element_ids@.subrange(0, k as int)).push(item@));
                    id_views(self.element_ids@.subrange(0, k as int)).lemma_filter_push(item@, |id: Seq<char>| valid.contains(id));
                }
                if holds_id(valid_ids, item) {
                    ids.push(item.clone());
                    proof {
                        assert(id_views(ids@) =~= id_views(before).push(item@));
                    }
                }
                k += 1;
            }
            proof {
                assert(self.element_ids@.subrange(0, self.element_ids@.len() as int) =~= self.element_ids@);
            }
        } else {
            proof {
                assert(id_views(ids@) =~= Seq::<Seq<char>>::empty().filter(|id: Seq<char>| valid.contains(id)));
            }
        }
        let ghost base = id_views(ids@);
        let mut h: usize = 0;
        while h < hits.len()
            invariant
                h <= hits@.len(),
                id_views(ids@) == selection_hits(base, id_views(hits@), h as nat, mode),
            decreases hits@.len() - h,
        {
            let hit = &hits[h];
            proof {
                assert(id_views(hits@)[h as int] == hit@);
            }
            let present = holds_id(&ids, hit);
            if mode == SelectionMode::Toggle && present {
                ids = without_id(&ids, hit);
            } else if !present {
                let ghost before = ids@;
                ids.push(hit.clone());
                proof {
                    assert(id_views(ids@) =~= id_views(before).push(hit@));
                }
            }
            h += 1;
        }
        let mut sorted: Vec<String> = Vec::new();
        let mut k: usize = 0;
        proof {
            assert(id_views(sorted@) =~= sort_by_order(id_views(ids@).subrange(0, 0), order@));
        }
        while k < ids.len()
            invariant
                k <= ids@.len(),
                id_views(sorted@) == sort_by_order(id_views(ids@).subrange(0, k as int), order@),
            decreases ids@.len() - k,
        {
            let x = &ids[k];
            let key = order_lookup(order, x);
            let mut p: usize = sorted.len();
            let ghost s0 = id_views(sorted@);
            proof {
                assert(s0.subrange(0, s0.len() as int) =~= s0);
                assert(s0.subrange(s0.len() as int, s0.len() as int) =~= Seq::<Seq<char>>::empty());
                assert(s0 + Seq::<Seq<char>>::empty() =~= s0);
            }
            while p > 0 && order_lookup(order, &sorted[p - 1]) > key
                invariant
                    p <= sorted@.len(),
                    s0 == id_views(sorted@),
                    key as int == order_of(order@, x@),
                    insert_by_order(s0, x@, order@) == insert_by_order(s0.subrange(0, p as int), x@, order@)
                        + s0.subrange(p as int, s0.len() as int),
                decreases p,
            {
                proof {
                    let t = s0.subrange(0, p as int);
                    assert(t.drop_last() =~= s0.subrange(0, p - 1));
                    assert(t.last() == s0[p - 1]);
                    assert(s0.subrange(p - 1, s0.len() as int) =~= seq![s0[p - 1]] + s0.subrange(p as int, s0.len() as int));
                }
                p -= 1;
            }
            let ghost sb = sorted@;
            sorted.insert(p, x.clone());
            proof {
                let t = s0.subrange(0, p as int);
                assert(insert_by_order(t, x@, order@) == t.push(x@));
                assert(id_views(sorted@) =~= t.push(x@) + s0.subrange(p as int, s0.len() as int));
                let pre = id_views(ids@).subrange(0, k as int);
                let post = id_views(ids@).subrange(0, k + 1);
                assert(post.drop_last() =~= pre);
                assert(post.last() == x@);
            }
            k += 1;
        }
        proof {
            assert(id_views(ids@).subrange(0, ids@.len() as int) =~= id_views(ids@));
        }
        WhiteboardSelection { element_ids: sorted }
    }
}

} // verus!
