//! Sparse projections of a worksheet window for renderers: only the
//! materialised cells inside a half-open viewport, in row-then-column order.

use vstd::prelude::*;
use crate::address::CellAddress;
use crate::grid::{GridViewport, ViewportError};
use crate::dependency::{SpreadsheetModel, CellModel, first_sheet_with};
use crate::evaluation::opt_view;
use crate::text::same_text;
use crate::cells::{CellValue, CellValueView, opt_value_view, text_view, attrs_view, copy_opt_value, copy_text, copy_attrs};

verus! {

/// A materialised cell of a projection.
#[derive(Debug, Clone, PartialEq, Eq)]
pub struct ViewportCell {
    pub address: CellAddress,
    pub value: Option<CellValue>,
    pub formula: Option<String>,
    pub attrs: Vec<(String, String)>,
    pub style: Option<String>,
}

/// A cell as its row, column, formula, value, style and attributes.
pub type CellView = (u32, u32, Option<Seq<char>>, Option<CellValueView>, Option<Seq<char>>, Seq<(Seq<char>, Seq<char>)>);

pub open spec fn cell_view(c: CellModel) -> CellView {
    (c.row, c.column, opt_view(c.formula), opt_value_view(c.value), text_view(c.style), attrs_view(c.attrs@))
}

pub open spec fn cells_view(s: Seq<CellModel>) -> Seq<CellView> {
    s.map_values(|c: CellModel| cell_view(c))
}

pub open spec fn projected_view(v: ViewportCell) -> CellView {
    (v.address.row, v.address.column, opt_view(v.formula), opt_value_view(v.value), text_view(v.style), attrs_view(v.attrs@))
}

pub open spec fn projected_views(s: Seq<ViewportCell>) -> Seq<CellView> {
    s.map_values(|v: ViewportCell| projected_view(v))
}

/// The cells inside the window `w`.
pub open spec fn in_window(w: GridViewport) -> spec_fn(CellView) -> bool {
    |x: CellView| w.spec_contains(x.0 as int, x.1 as int)
}

/// The cells at (`row`, `column`).
pub open spec fn at_position(row: u32, column: u32) -> spec_fn(CellView) -> bool {
    |x: CellView| x.0 == row && x.1 == column
}

/// Row-then-column order of positions.
pub open spec fn position_le(x: CellView, y: CellView) -> bool {
    x.0 < y.0 || (x.0 == y.0 && x.1 <= y.1)
}

pub open spec fn by_position(s: Seq<CellView>) -> bool {
    forall|i: int, j: int| 0 <= i < j < s.len() ==> position_le(#[trigger] s[i], #[trigger] s[j])
}

/// Every position holds the same cells, in the same order, in `s` and `t`.
pub open spec fn same_groups(s: Seq<CellView>, t: Seq<CellView>) -> bool {
    forall|row: u32, column: u32| #[trigger] t.filter(at_position(row, column)) == s.filter(at_position(row, column))
}

/// `t` is `s` ordered by row, then column; cells at one position keep
/// their order.
pub open spec fn sorted_stably(s: Seq<CellView>, t: Seq<CellView>) -> bool {
    by_position(t) && same_groups(s, t)
}

/// The sequence with the elements at `j - 1` and `j` exchanged.
pub open spec fn swapped<A>(s: Seq<A>, j: int) -> Seq<A> {
    s.update(j - 1, s[j]).update(j, s[j - 1])
}

proof fn lemma_pair_filter(a: CellView, b: CellView, p: spec_fn(CellView) -> bool)
    requires
        !(p(a) && p(b)),
    ensures
        seq![a, b].filter(p) == seq![b, a].filter(p),
{
    let e = Seq::<CellView>::empty();
    assert(seq![a, b] =~= e.push(a).push(b));
    assert(seq![b, a] =~= e.push(b).push(a));
    e.lemma_filter_push(a, p);
    e.lemma_filter_push(b, p);
    e.push(a).lemma_filter_push(b, p);
    e.push(b).lemma_filter_push(a, p);
    reveal(Seq::filter);
    assert(e.filter(p) =~= e);
}

/// Exchanging neighbours at different positions keeps every position's cells
/// in order.
proof fn lemma_swap_groups(s: Seq<CellView>, j: int)
    requires
        0 < j < s.len(),
        !(s[j - 1].0 == s[j].0 && s[j - 1].1 == s[j].1),
    ensures
        same_groups(s, swapped(s, j)),
{
    let t = swapped(s, j);
    let pre = s.subrange(0, j - 1);
    let post = s.subrange(j + 1, s.len() as int);
    assert(s =~= pre + seq![s[j - 1], s[j]] + post);
    assert(t =~= pre + seq![s[j], s[j - 1]] + post);
    assert forall|row: u32, column: u32| #[trigger] t.filter(at_position(row, column)) == s.filter(at_position(row, column)) by {
        let p = at_position(row, column);
        lemma_pair_filter(s[j - 1], s[j], p);
        Seq::filter_distributes_over_add(pre + seq![s[j - 1], s[j]], post, p);
        Seq::filter_distributes_over_add(pre, seq![s[j - 1], s[j]], p);
        Seq::filter_distributes_over_add(pre + seq![s[j], s[j - 1]], post, p);
        Seq::filter_distributes_over_add(pre, seq![s[j], s[j - 1]], p);
    }
}

/// Whether `a` stands at a later position than `b`.
fn later(a: &ViewportCell, b: &ViewportCell) -> (res: bool)
    ensures
        res == !position_le(projected_view(*a), projected_view(*b)),
{
    a.address.row > b.address.row || (a.address.row == b.address.row && a.address.column > b.address.column)
}

/// Sorts the cells by row, then column, keeping the order of cells at one
/// position.
fn sort_by_position(cells: &mut Vec<ViewportCell>, Ghost(sheet): Ghost<Seq<char>>)
    requires
        forall|k: int| 0 <= k < old(cells)@.len() ==> (#[trigger] old(cells)@[k]).address.sheet_id@ == sheet,
    ensures
        sorted_stably(projected_views(old(cells)@), projected_views(final(cells)@)),
        forall|k: int| 0 <= k < final(cells)@.len() ==> (#[trigger] final(cells)@[k]).address.sheet_id@ == sheet,
{
    let ghost original = projected_views(cells@);
    let n = cells.len();
    let mut i: usize = 1;
    if n < 2 {
        proof {
            assert(same_groups(original, projected_views(cells@)));
        }
        return;
    }
    while i < n
        invariant
            cells@.len() == n,
            1 <= i <= n,
            original == projected_views(old(cells)@),
            by_position(projected_views(cells@).subrange(0, i as int)),
            same_groups(original, projected_views(cells@)),
            forall|k: int| 0 <= k < cells@.len() ==> (#[trigger] cells@[k]).address.sheet_id@ == sheet,
        decreases n - i,
    {
        let mut j: usize = i;
        while j > 0 && later(&cells[j - 1], &cells[j])
            invariant
                cells@.len() == n,
                0 <= j <= i < n,
                original == projected_views(old(cells)@),
                by_position(projected_views(cells@).subrange(0, j as int)),
                forall|a: int, b: int| j + 1 <= a < b <= i ==> position_le(#[trigger] projected_views(cells@)[a], #[trigger] projected_views(cells@)[b]),
                forall|a: int, b: int| 0 <= a < j && j < b <= i ==> position_le(#[trigger] projected_views(cells@)[a], #[trigger] projected_views(cells@)[b]),
                j < i ==> !position_le(projected_views(cells@)[j + 1], projected_views(cells@)[j as int]),
                same_groups(original, projected_views(cells@)),
                forall|k: int| 0 <= k < cells@.len() ==> (#[trigger] cells@[k]).address.sheet_id@ == sheet,
            decreases j,
        {
            let ghost before = cells@;
            let ghost v = projected_views(before);
            let x = cells.remove(j);
            cells.insert(j - 1, x);
            proof {
                assert(cells@ =~= swapped(before, j as int));
                assert(projected_views(cells@) =~= swapped(v, j as int));
                lemma_swap_groups(v, j as int);
                let w = projected_views(cells@);
                assert forall|g: u32, h: u32| #[trigger] w.filter(at_position(g, h)) == original.filter(at_position(g, h)) by {
                    assert(w.filter(at_position(g, h)) == v.filter(at_position(g, h)));
                }
                assert forall|a: int, b: int| 0 <= a < b < j - 1 implies position_le(#[trigger] w.subrange(0, j - 1)[a], #[trigger] w.subrange(0, j - 1)[b]) by {
                    assert(v.subrange(0, j as int)[a] == w[a] && v.subrange(0, j as int)[b] == w[b]);
                }
                assert forall|a: int, b: int| j <= a < b <= i implies position_le(#[trigger] w[a], #[trigger] w[b]) by {
                    if a == j {
                        assert(w[a] == v[j - 1]);
                        assert(w[b] == v[b]);
                    } else {
                        assert(w[a] == v[a] && w[b] == v[b]);
                    }
                }
                assert forall|a: int, b: int| 0 <= a < j - 1 && j - 1 < b <= i implies position_le(#[trigger] w[a], #[trigger] w[b]) by {
                    assert(w[a] == v[a]);
                    if b == j {
                        assert(w[b] == v[j - 1]);
                        assert(v.subrange(0, j as int)[a] == v[a] && v.subrange(0, j as int)[j - 1] == v[j - 1]);
                    } else {
                        assert(w[b] == v[b]);
                    }
                }
                assert forall|k: int| 0 <= k < cells@.len() implies (#[trigger] cells@[k]).address.sheet_id@ == sheet by {
                    if k == j - 1 {
                        assert(cells@[k] == before[j as int]);
                    } else if k == j {
                        assert(cells@[k] == before[j - 1]);
                    } else {
                        assert(cells@[k] == before[k]);
                    }
                }
            }
            j -= 1;
        }
        proof {
            let w = projected_views(cells@);
            assert forall|a: int, b: int| 0 <= a < b < i + 1 implies position_le(#[trigger] w.subrange(0, i + 1)[a], #[trigger] w.subrange(0, i + 1)[b]) by {
                assert(w.subrange(0, i + 1)[a] == w[a] && w.subrange(0, i + 1)[b] == w[b]);
                if b < j {
                    assert(w.subrange(0, j as int)[a] == w[a] && w.subrange(0, j as int)[b] == w[b]);
                } else if b == j {
                    if a < j - 1 {
                        assert(w.subrange(0, j as int)[a] == w[a] && w.subrange(0, j as int)[j - 1] == w[j - 1]);
                    }
                } else if a == j {
                    if b > j + 1 {
                        assert(position_le(w[j + 1], w[b]));
                    }
                } else if a > j {
                } else {
                    assert(position_le(w[a], w[b]));
                }
            }
        }
        i += 1;
    }
    proof {
        assert(projected_views(cells@).subrange(0, n as int) =~= projected_views(cells@));
    }
}

/// The materialised cells of one sheet inside a viewport.
#[derive(Debug, Clone, PartialEq, Eq)]
pub struct SparseGridViewport {
    pub sheet_id: String,
    pub viewport: GridViewport,
    pub cells: Vec<ViewportCell>,
    pub materialized_cell_count: usize,
}

impl SparseGridViewport {
    /// The cells of sheet `sheet_id` inside `viewport`, by row then column;
    /// cells at one position keep the order the sheet holds them in.
    pub fn project(model: &SpreadsheetModel, sheet_id: &str, viewport: GridViewport) -> (res: Result<Self, ViewportError>)
        ensures
            match res {
                Ok(p) => exists|i: int|
                    first_sheet_with(*model, sheet_id@, i) && p.sheet_id@ == sheet_id@ && p.viewport == viewport
                        && p.materialized_cell_count == p.cells@.len() && (forall|k: int|
                        0 <= k < p.cells@.len() ==> (#[trigger] p.cells@[k]).address.sheet_id@ == sheet_id@)
                        && sorted_stably(
                        cells_view(model.sheets@[i].cells@).filter(in_window(viewport)),
                        projected_views(p.cells@),
                    ),
                Err(e) => (forall|i: int| !first_sheet_with(*model, sheet_id@, i)) && (e matches ViewportError::MissingSheet(s)
                    && s@ == sheet_id@),
            },
    {
        let mut i: usize = 0;
        while i < model.sheets.len() && !same_text(model.sheets[i].id.as_str(), sheet_id)
            invariant
                i <= model.sheets@.len(),
                forall|k: int| 0 <= k < i ==> (#[trigger] model.sheets@[k]).id@ != sheet_id@,
            decreases model.sheets@.len() - i,
        {
            i += 1;
        }
        if i == model.sheets.len() {
            return Err(ViewportError::MissingSheet(String::from_str(sheet_id)));
        }
        proof {
            assert(first_sheet_with(*model, sheet_id@, i as int));
        }
        let cells_in = &model.sheets[i].cells;
        let ghost all = cells_view(cells_in@);
        let mut cells: Vec<ViewportCell> = Vec::new();
        let mut j: usize = 0;
        proof {
            assert(all.subrange(0, 0) =~= Seq::<CellView>::empty());
            reveal(Seq::filter);
            assert(projected_views(cells@) =~= all.subrange(0, 0).filter(in_window(viewport)));
        }
        while j < cells_in.len()
            invariant
                all == cells_view(cells_in@),
                j <= cells_in@.len(),
                projected_views(cells@) == all.subrange(0, j as int).filter(in_window(viewport)),
                forall|k: int| 0 <= k < cells@.len() ==> (#[trigger] cells@[k]).address.sheet_id@ == sheet_id@,
            decreases cells_in@.len() - j,
        {
            let c = &cells_in[j];
            let ghost before = cells@;
            proof {
                assert(all.subrange(0, j + 1) =~= all.subrange(0, j as int).push(all[j as int]));
                all.subrange(0, j as int).lemma_filter_push(all[j as int], in_window(viewport));
            }
            if viewport.contains(c.row, c.column) {
                let formula = match &c.formula {
                    Some(f) => Some(f.clone()),
                    None => None,
                };
                cells.push(ViewportCell {
                    address: CellAddress { sheet_id: String::from_str(sheet_id), row: c.row, column: c.column },
                    value: copy_opt_value(&c.value),
                    formula,
                    attrs: copy_attrs(&c.attrs),
                    style: copy_text(&c.style),
                });
                proof {
                    assert(projected_views(cells@) =~= projected_views(before).push(all[j as int]));
                }
            }
            j += 1;
        }
        proof {
            assert(all.subrange(0, j as int) =~= all);
        }
        sort_by_position(&mut cells, Ghost(sheet_id@));
        let count = cells.len();
        Ok(SparseGridViewport { sheet_id: String::from_str(sheet_id), viewport, cells, materialized_cell_count: count })
    }

    /// Whether the window holds fewer materialised cells than grid slots.
    pub fn is_sparse(&self) -> (res: bool)
        requires
            self.viewport.start_row <= self.viewport.end_row,
            self.viewport.start_column <= self.viewport.end_column,
        ensures
            res == (self.materialized_cell_count < self.viewport.spec_cell_count()),
    {
        (self.materialized_cell_count as u64) < self.viewport.cell_count()
    }
}

} // verus!
