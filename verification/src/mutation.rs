//! Reversible spreadsheet mutations: each carries the state before and
//! after a change, so that its inverse undoes it without reading the old
//! document, and applying it to a workbook is a pure edit of the model.

use vstd::prelude::*;
use crate::address::CellAddress;
use crate::grid::{GridRange, inside_range};
use crate::dependency::{SpreadsheetModel, SheetModel, CellModel, SheetMetadata, FreezePane, copy_ranges};
use crate::viewport::{CellView, cell_view, cells_view};
use crate::sheet_edits::{SpreadsheetEngineError, copy_cell, in_range};
use crate::text::same_text;

verus! {

/// A sheet as its id, name, cells, metadata and merged regions.
pub type SheetView = (Seq<char>, Seq<char>, Seq<CellView>, SheetMetadata, Seq<GridRange>);

pub open spec fn sheet_view(s: SheetModel) -> SheetView {
    (s.id@, s.name@, cells_view(s.cells@), s.metadata, s.merged_ranges@)
}

pub open spec fn model_view(m: SpreadsheetModel) -> Seq<SheetView> {
    m.sheets@.map_values(|s: SheetModel| sheet_view(s))
}

pub open spec fn opt_sheet_view(o: Option<SheetModel>) -> Option<SheetView> {
    match o {
        Some(s) => Some(sheet_view(s)),
        None => None,
    }
}

pub open spec fn opt_cell_view(o: Option<CellModel>) -> Option<CellView> {
    match o {
        Some(c) => Some(cell_view(c)),
        None => None,
    }
}

/// `x` comes before `y` in row-then-column order.
pub open spec fn pos_before(x: CellView, y: CellView) -> bool {
    x.0 < y.0 || (x.0 == y.0 && x.1 < y.1)
}

/// Cells in strictly increasing row-then-column order: no two share a
/// position.
pub open spec fn sorted_cells(s: Seq<CellView>) -> bool {
    forall|i: int, j: int| 0 <= i < j < s.len() ==> pos_before(#[trigger] s[i], #[trigger] s[j])
}

/// A workbook whose sheet ids are distinct and whose sheets keep their
/// cells in row-then-column order, one cell per position.
pub open spec fn model_wf(v: Seq<SheetView>) -> bool {
    &&& forall|i: int, j: int| 0 <= i < j < v.len() ==> (#[trigger] v[i]).0 != (#[trigger] v[j]).0
    &&& forall|i: int| 0 <= i < v.len() ==> sorted_cells(#[trigger] v[i].2)
}

/// The position of the sheet with id `id`, or -1.
pub open spec fn sheet_pos(v: Seq<SheetView>, id: Seq<char>) -> int {
    if exists|i: int| 0 <= i < v.len() && v[i].0 == id {
        choose|i: int| 0 <= i < v.len() && v[i].0 == id
    } else {
        -1
    }
}

/// The cells in row-then-column order that make up the set `s`.
pub open spec fn sorted_of(s: Set<CellView>) -> Seq<CellView> {
    choose|t: Seq<CellView>| sorted_cells(t) && t.to_set() == s
}

/// The cells of `s` at any position but (`row`, `column`).
pub open spec fn off_position(row: u32, column: u32) -> spec_fn(CellView) -> bool {
    |x: CellView| !(x.0 == row && x.1 == column)
}

/// The cells of `s` outside `range`.
pub open spec fn off_range(range: GridRange) -> spec_fn(CellView) -> bool {
    |x: CellView| !range.spec_contains(x.0 as int, x.1 as int)
}

pub open spec fn opt_set(o: Option<CellView>) -> Set<CellView> {
    match o {
        Some(c) => set![c],
        None => Set::empty(),
    }
}

/// The cell set after the cell at (`row`, `column`) becomes `after`.
pub open spec fn cell_change(s: Set<CellView>, row: u32, column: u32, after: Option<CellView>) -> Set<CellView> {
    s.filter(off_position(row, column)) + opt_set(after)
}

/// The cell set after the cells of `range` become `after`.
pub open spec fn range_change(s: Set<CellView>, range: GridRange, after: Seq<CellView>) -> Set<CellView> {
    s.filter(off_range(range)) + after.to_set()
}

/// A mutation by the texts and views it holds.
pub enum MutationView {
    SheetChanged { sheet_id: Seq<char>, index: int, before: Option<SheetView>, after: Option<SheetView> },
    CellChanged { sheet_id: Seq<char>, row: u32, column: u32, before: Option<CellView>, after: Option<CellView> },
    RangeChanged { sheet_id: Seq<char>, range: GridRange, before: Seq<CellView>, after: Seq<CellView> },
    PaneChanged { sheet_id: Seq<char>, before: FreezePane, after: FreezePane },
    RowDimensionsChanged { sheet_id: Seq<char>, before: Option<u32>, after: Option<u32> },
    ColumnDimensionsChanged { sheet_id: Seq<char>, before: Option<u32>, after: Option<u32> },
}

/// The inverse of a mutation: before and after exchanged.
pub open spec fn inverse_view(m: MutationView) -> MutationView {
    match m {
        MutationView::SheetChanged { sheet_id, index, before, after } =>
            MutationView::SheetChanged { sheet_id, index, before: after, after: before },
        MutationView::CellChanged { sheet_id, row, column, before, after } =>
            MutationView::CellChanged { sheet_id, row, column, before: after, after: before },
        MutationView::RangeChanged { sheet_id, range, before, after } =>
            MutationView::RangeChanged { sheet_id, range, before: after, after: before },
        MutationView::PaneChanged { sheet_id, before, after } =>
            MutationView::PaneChanged { sheet_id, before: after, after: before },
        MutationView::RowDimensionsChanged { sheet_id, before, after } =>
            MutationView::RowDimensionsChanged { sheet_id, before: after, after: before },
        MutationView::ColumnDimensionsChanged { sheet_id, before, after } =>
            MutationView::ColumnDimensionsChanged { sheet_id, before: after, after: before },
    }
}

/// The sheet a mutation edits.
pub open spec fn target_sheet(m: MutationView) -> Seq<char> {
    match m {
        MutationView::SheetChanged { sheet_id, .. } => sheet_id,
        MutationView::CellChanged { sheet_id, .. } => sheet_id,
        MutationView::RangeChanged { sheet_id, .. } => sheet_id,
        MutationView::PaneChanged { sheet_id, .. } => sheet_id,
        MutationView::RowDimensionsChanged { sheet_id, .. } => sheet_id,
        MutationView::ColumnDimensionsChanged { sheet_id, .. } => sheet_id,
    }
}

/// The shapes the engine records: a new sheet carries the mutation's id
/// and ordered cells; a new cell sits at the mutation's address; a range's
/// new cells are ordered and inside the range.
pub open spec fn mutation_wf(m: MutationView) -> bool {
    match m {
        MutationView::SheetChanged { sheet_id, after, .. } => after matches Some(s) ==> s.0 == sheet_id && sorted_cells(s.2),
        MutationView::CellChanged { row, column, after, .. } => after matches Some(c) ==> c.0 == row && c.1 == column,
        MutationView::RangeChanged { range, after, .. } => sorted_cells(after) && forall|k: int|
            0 <= k < after.len() ==> range.spec_contains((#[trigger] after[k]).0 as int, after[k].1 as int),
        _ => true,
    }
}

/// Whether applying the mutation succeeds: the sheet it edits exists, or,
/// for a sheet that is created, its position is inside the workbook.
pub open spec fn can_apply(v: Seq<SheetView>, m: MutationView) -> bool {
    match m {
        MutationView::SheetChanged { sheet_id, index, after, .. } => after is None || sheet_pos(v, sheet_id) >= 0
            || 0 <= index <= v.len(),
        _ => sheet_pos(v, target_sheet(m)) >= 0,
    }
}

/// The sheet with its cells replaced by `cells`.
pub open spec fn with_cells(s: SheetView, cells: Seq<CellView>) -> SheetView {
    (s.0, s.1, cells, s.3, s.4)
}

pub open spec fn with_metadata(s: SheetView, md: SheetMetadata) -> SheetView {
    (s.0, s.1, s.2, md, s.4)
}

/// The workbook after the mutation.
pub open spec fn spec_apply(v: Seq<SheetView>, m: MutationView) -> Seq<SheetView> {
    let i = sheet_pos(v, target_sheet(m));
    match m {
        MutationView::SheetChanged { index, after, .. } => match after {
            Some(s) => if i >= 0 { v.update(i, s) } else { v.insert(index, s) },
            None => if i >= 0 { v.remove(i) } else { v },
        },
        MutationView::CellChanged { row, column, after, .. } =>
            v.update(i, with_cells(v[i], sorted_of(cell_change(v[i].2.to_set(), row, column, after)))),
        MutationView::RangeChanged { range, after, .. } =>
            v.update(i, with_cells(v[i], sorted_of(range_change(v[i].2.to_set(), range, after)))),
        MutationView::PaneChanged { after, .. } =>
            v.update(i, with_metadata(v[i], SheetMetadata { freeze: after, ..v[i].3 })),
        MutationView::RowDimensionsChanged { after, .. } =>
            v.update(i, with_metadata(v[i], SheetMetadata { row_count: after, ..v[i].3 })),
        MutationView::ColumnDimensionsChanged { after, .. } =>
            v.update(i, with_metadata(v[i], SheetMetadata { column_count: after, ..v[i].3 })),
    }
}

/// The cell of `s` at (`row`, `column`), if any.
pub open spec fn cell_at(s: Seq<CellView>, row: u32, column: u32) -> Option<CellView> {
    if exists|k: int| 0 <= k < s.len() && s[k].0 == row && s[k].1 == column {
        Some(s[choose|k: int| 0 <= k < s.len() && s[k].0 == row && s[k].1 == column])
    } else {
        None
    }
}

/// The mutation's `before` is the workbook's present state.
pub open spec fn records_present(v: Seq<SheetView>, m: MutationView) -> bool {
    let i = sheet_pos(v, target_sheet(m));
    match m {
        MutationView::SheetChanged { index, before, after, .. } => {
            &&& before == (if i >= 0 { Some(v[i]) } else { None::<SheetView> })
            &&& before is Some ==> index == i
            &&& before is None && after is Some ==> 0 <= index <= v.len()
        },
        MutationView::CellChanged { row, column, before, .. } => i >= 0 && before == cell_at(v[i].2, row, column),
        MutationView::RangeChanged { range, before, .. } => i >= 0 && sorted_cells(before)
            && before.to_set() == v[i].2.to_set().filter(in_range(range)),
        MutationView::PaneChanged { before, .. } => i >= 0 && before == v[i].3.freeze,
        MutationView::RowDimensionsChanged { before, .. } => i >= 0 && before == v[i].3.row_count,
        MutationView::ColumnDimensionsChanged { before, .. } => i >= 0 && before == v[i].3.column_count,
    }
}

/// Two cell lists in row-then-column order with the same cells are equal.
pub proof fn lemma_sorted_unique(a: Seq<CellView>, b: Seq<CellView>)
    requires
        sorted_cells(a),
        sorted_cells(b),
        a.to_set() == b.to_set(),
    ensures
        a == b,
    decreases a.len(),
{
    if a.len() == 0 {
        if b.len() > 0 {
            assert(b.to_set().contains(b[0]));
        }
        assert(a =~= b);
    } else {
        assert(a.to_set().contains(a[0]));
        assert(b.to_set().contains(a[0]));
        assert(b.len() > 0);
        assert(b.to_set().contains(b[0]));
        assert(a.to_set().contains(b[0]));
        let ka = choose|k: int| 0 <= k < a.len() && a[k] == b[0];
        let kb = choose|k: int| 0 <= k < b.len() && b[k] == a[0];
        if ka > 0 {
            assert(pos_before(a[0], a[ka]));
        }
        if kb > 0 {
            assert(pos_before(b[0], b[kb]));
        }
        assert(a[0] == b[0]);
        let a1 = a.drop_first();
        let b1 = b.drop_first();
        assert(sorted_cells(a1)) by {
            assert forall|i: int, j: int| 0 <= i < j < a1.len() implies pos_before(#[trigger] a1[i], #[trigger] a1[j]) by {
                assert(a1[i] == a[i + 1] && a1[j] == a[j + 1]);
            }
        }
        assert(sorted_cells(b1)) by {
            assert forall|i: int, j: int| 0 <= i < j < b1.len() implies pos_before(#[trigger] b1[i], #[trigger] b1[j]) by {
                assert(b1[i] == b[i + 1] && b1[j] == b[j + 1]);
            }
        }
        assert forall|x: CellView| a1.to_set().contains(x) <==> b1.to_set().contains(x) by {
            if a1.to_set().contains(x) {
                let i = choose|i: int| 0 <= i < a1.len() && a1[i] == x;
                assert(a[i + 1] == x);
                assert(pos_before(a[0], a[i + 1]));
                assert(a.to_set().contains(x));
                let j = choose|j: int| 0 <= j < b.len() && b[j] == x;
                assert(j != 0);
                assert(b1[j - 1] == x);
            }
            if b1.to_set().contains(x) {
                let i = choose|i: int| 0 <= i < b1.len() && b1[i] == x;
                assert(b[i + 1] == x);
                assert(pos_before(b[0], b[i + 1]));
                assert(b.to_set().contains(x));
                let j = choose|j: int| 0 <= j < a.len() && a[j] == x;
                assert(j != 0);
                assert(a1[j - 1] == x);
            }
        }
        assert(a1.to_set() =~= b1.to_set());
        lemma_sorted_unique(a1, b1);
        assert(a =~= b) by {
            assert forall|i: int| 0 <= i < a.len() implies a[i] == b[i] by {
                if i > 0 {
                    assert(a[i] == a1[i - 1] && b[i] == b1[i - 1]);
                }
            }
        }
    }
}

/// A list in row-then-column order is the ordered list of its own cells.
pub proof fn lemma_sorted_of(t: Seq<CellView>)
    requires
        sorted_cells(t),
    ensures
        sorted_of(t.to_set()) == t,
        sorted_cells(sorted_of(t.to_set())),
{
    let u = sorted_of(t.to_set());
    assert(sorted_cells(t) && t.to_set() == t.to_set());
    lemma_sorted_unique(u, t);
}

/// In a workbook with distinct sheet ids, the sheet at `i` is the one its
/// id finds.
pub proof fn lemma_sheet_pos(v: Seq<SheetView>, i: int)
    requires
        forall|a: int, b: int| 0 <= a < b < v.len() ==> (#[trigger] v[a]).0 != (#[trigger] v[b]).0,
        0 <= i < v.len(),
    ensures
        sheet_pos(v, v[i].0) == i,
{
    let j = sheet_pos(v, v[i].0);
    assert(0 <= j < v.len() && v[j].0 == v[i].0);
    if j < i {
        assert(v[j].0 != v[i].0);
    } else if i < j {
        assert(v[i].0 != v[j].0);
    }
}

/// No sheet carries `id`.
pub proof fn lemma_sheet_pos_none(v: Seq<SheetView>, id: Seq<char>)
    requires
        forall|k: int| 0 <= k < v.len() ==> (#[trigger] v[k]).0 != id,
    ensures
        sheet_pos(v, id) == -1,
{
}

/// No two cells of the set share a position.
pub open spec fn distinct_positions(x: Set<CellView>) -> bool {
    forall|a: CellView, b: CellView| x.contains(a) && x.contains(b) && a.0 == b.0 && a.1 == b.1 ==> a == b
}

/// Keeping some cells of an ordered list keeps it ordered, and keeps
/// exactly those of its cells.
pub proof fn lemma_filter_sorted(t: Seq<CellView>, f: spec_fn(CellView) -> bool)
    requires
        sorted_cells(t),
    ensures
        sorted_cells(t.filter(f)),
        t.filter(f).to_set() == t.to_set().filter(f),
    decreases t.len(),
{
    if t.len() == 0 {
        assert(t.filter(f) =~= Seq::<CellView>::empty()) by {
            reveal(Seq::filter);
        }
        assert(t.to_set().filter(f) =~= Set::<CellView>::empty());
    } else {
        let r = t.drop_last();
        let x = t.last();
        assert(t =~= r.push(x));
        assert(sorted_cells(r)) by {
            assert forall|i: int, j: int| 0 <= i < j < r.len() implies pos_before(#[trigger] r[i], #[trigger] r[j]) by {
                assert(r[i] == t[i] && r[j] == t[j]);
            }
        }
        lemma_filter_sorted(r, f);
        r.lemma_filter_push(x, f);
        let rf = r.filter(f);
        if f(x) {
            let w = rf.push(x);
            assert forall|i: int, j: int| 0 <= i < j < w.len() implies pos_before(#[trigger] w[i], #[trigger] w[j]) by {
                if j == rf.len() {
                    assert(rf.contains(rf[i]));
                    r.lemma_filter_contains_rev(f, rf[i]);
                    let k = choose|k: int| 0 <= k < r.len() && r[k] == rf[i];
                    assert(t[k] == rf[i] && t[t.len() - 1] == x);
                } else {
                    assert(w[i] == rf[i] && w[j] == rf[j]);
                }
            }
        }
        assert forall|y: CellView| t.filter(f).to_set().contains(y) <==> t.to_set().filter(f).contains(y) by {
            if t.to_set().filter(f).contains(y) {
                let k = choose|k: int| 0 <= k < t.len() && t[k] == y;
                if k < r.len() {
                    assert(r[k] == y);
                    assert(r.to_set().contains(y));
                    assert(rf.to_set().contains(y));
                    let m = choose|m: int| 0 <= m < rf.len() && rf[m] == y;
                    if f(x) {
                        assert(rf.push(x)[m] == y);
                    }
                } else {
                    assert(y == x);
                    assert(rf.push(x)[rf.len() as int] == y);
                }
            }
            if t.filter(f).to_set().contains(y) {
                let k = choose|k: int| 0 <= k < t.filter(f).len() && t.filter(f)[k] == y;
                if f(x) && k == rf.len() {
                    assert(y == x);
                    assert(t[t.len() - 1] == x);
                } else {
                    assert(rf[k] == y);
                    assert(rf.to_set().contains(y));
                    assert(r.to_set().filter(f).contains(y));
                    let m = choose|m: int| 0 <= m < r.len() && r[m] == y;
                    assert(t[m] == y);
                }
            }
        }
        assert(t.filter(f).to_set() =~= t.to_set().filter(f));
    }
}

/// An ordered list has distinct positions.
pub proof fn lemma_sorted_distinct(t: Seq<CellView>)
    requires
        sorted_cells(t),
    ensures
        distinct_positions(t.to_set()),
{
    assert forall|a: CellView, b: CellView| t.to_set().contains(a) && t.to_set().contains(b) && a.0 == b.0 && a.1 == b.1 implies a == b by {
        let i = choose|i: int| 0 <= i < t.len() && t[i] == a;
        let j = choose|j: int| 0 <= j < t.len() && t[j] == b;
        if i < j {
            assert(pos_before(t[i], t[j]));
        } else if j < i {
            assert(pos_before(t[j], t[i]));
        }
    }
}

/// A finite set of cells with distinct positions has an ordered list.
pub proof fn lemma_sorted_exists(x: Set<CellView>)
    requires
        x.finite(),
        distinct_positions(x),
    ensures
        sorted_cells(sorted_of(x)),
        sorted_of(x).to_set() == x,
    decreases x.len(),
{
    if x.len() == 0 {
        let e = Seq::<CellView>::empty();
        assert(e.to_set() =~= x);
        assert(sorted_cells(e));
    } else {
        let c = x.choose();
        let rest = x.remove(c);
        assert(distinct_positions(rest));
        lemma_sorted_exists(rest);
        let t = sorted_of(rest);
        let lo = |y: CellView| pos_before(y, c);
        let hi = |y: CellView| pos_before(c, y);
        lemma_filter_sorted(t, lo);
        lemma_filter_sorted(t, hi);
        let a = t.filter(lo);
        let b = t.filter(hi);
        let w = a.push(c) + b;
        assert forall|i: int, j: int| 0 <= i < j < w.len() implies pos_before(#[trigger] w[i], #[trigger] w[j]) by {
            if i < a.len() {
                assert(a.to_set().contains(a[i]));
                assert(w[i] == a[i]);
                if j < a.len() {
                    assert(w[j] == a[j]);
                } else if j > a.len() {
                    assert(w[j] == b[j - a.len() - 1]);
                    assert(b.to_set().contains(b[j - a.len() - 1]));
                }
            } else if i == a.len() {
                assert(w[j] == b[j - a.len() - 1]);
                assert(b.to_set().contains(b[j - a.len() - 1]));
            } else {
                assert(w[i] == b[i - a.len() - 1] && w[j] == b[j - a.len() - 1]);
            }
        }
        assert forall|y: CellView| w.to_set().contains(y) <==> x.contains(y) by {
            if x.contains(y) {
                if y == c {
                    assert(w[a.len() as int] == c);
                } else {
                    assert(rest.contains(y));
                    assert(t.to_set().contains(y));
                    if pos_before(y, c) {
                        assert(a.to_set().contains(y));
                        let k = choose|k: int| 0 <= k < a.len() && a[k] == y;
                        assert(w[k] == y);
                    } else {
                        assert(!(y.0 == c.0 && y.1 == c.1));
                        assert(b.to_set().contains(y));
                        let k = choose|k: int| 0 <= k < b.len() && b[k] == y;
                        assert(w[k + a.len() + 1] == y);
                    }
                }
            }
            if w.to_set().contains(y) {
                let k = choose|k: int| 0 <= k < w.len() && w[k] == y;
                if k < a.len() {
                    assert(a[k] == y);
                    assert(a.to_set().contains(y));
                } else if k > a.len() {
                    assert(b[k - a.len() - 1] == y);
                    assert(b.to_set().contains(y));
                }
            }
        }
        assert(w.to_set() =~= x);
        lemma_sorted_unique(sorted_of(x), w);
    }
}

/// Taking the inverse twice gives the mutation back.
pub proof fn law_inverse_involution(m: MutationView)
    ensures
        inverse_view(inverse_view(m)) == m,
{
}

proof fn lemma_cells_restored(s: Seq<CellView>, row: u32, column: u32, before: Option<CellView>, after: Option<CellView>)
    requires
        sorted_cells(s),
        before == cell_at(s, row, column),
        after matches Some(c) ==> c.0 == row && c.1 == column,
    ensures
        sorted_cells(sorted_of(cell_change(s.to_set(), row, column, after))),
        sorted_of(cell_change(s.to_set(), row, column, after)).to_set() == cell_change(s.to_set(), row, column, after),
        sorted_of(cell_change(sorted_of(cell_change(s.to_set(), row, column, after)).to_set(), row, column, before)) == s,
{
    let x = s.to_set();
    let x1 = cell_change(x, row, column, after);
    lemma_sorted_distinct(s);
    assert(distinct_positions(x1));
    lemma_sorted_exists(x1);
    let t1 = sorted_of(x1);
    let x2 = cell_change(t1.to_set(), row, column, before);
    assert forall|y: CellView| x2.contains(y) <==> x.contains(y) by {
        if x.contains(y) && y.0 == row && y.1 == column {
            let k = choose|k: int| 0 <= k < s.len() && s[k] == y;
            let c = choose|k: int| 0 <= k < s.len() && s[k].0 == row && s[k].1 == column;
            assert(x.contains(s[c]));
            assert(before == Some(s[c]));
        }
        if before matches Some(b) {
            let c = choose|k: int| 0 <= k < s.len() && s[k].0 == row && s[k].1 == column;
            assert(x.contains(s[c]));
        }
    }
    assert(x2 =~= x);
    lemma_sorted_of(s);
}

proof fn lemma_range_restored(s: Seq<CellView>, range: GridRange, before: Seq<CellView>, after: Seq<CellView>)
    requires
        sorted_cells(s),
        sorted_cells(after),
        forall|k: int| 0 <= k < after.len() ==> range.spec_contains((#[trigger] after[k]).0 as int, after[k].1 as int),
        before.to_set() == s.to_set().filter(in_range(range)),
    ensures
        sorted_cells(sorted_of(range_change(s.to_set(), range, after))),
        sorted_of(range_change(s.to_set(), range, after)).to_set() == range_change(s.to_set(), range, after),
        sorted_of(range_change(sorted_of(range_change(s.to_set(), range, after)).to_set(), range, before)) == s,
{
    let x = s.to_set();
    let x1 = range_change(x, range, after);
    lemma_sorted_distinct(s);
    lemma_sorted_distinct(after);
    assert forall|a: CellView, b: CellView| x1.contains(a) && x1.contains(b) && a.0 == b.0 && a.1 == b.1 implies a == b by {
        if after.to_set().contains(a) && !after.to_set().contains(b) {
            let k = choose|k: int| 0 <= k < after.len() && after[k] == a;
            assert(range.spec_contains(after[k].0 as int, after[k].1 as int));
        }
        if after.to_set().contains(b) && !after.to_set().contains(a) {
            let k = choose|k: int| 0 <= k < after.len() && after[k] == b;
            assert(range.spec_contains(after[k].0 as int, after[k].1 as int));
        }
    }
    lemma_sorted_exists(x1);
    let t1 = sorted_of(x1);
    let x2 = range_change(t1.to_set(), range, before);
    assert forall|y: CellView| x2.contains(y) <==> x.contains(y) by {
        if after.to_set().contains(y) {
            let k = choose|k: int| 0 <= k < after.len() && after[k] == y;
            assert(range.spec_contains(after[k].0 as int, after[k].1 as int));
        }
        if before.to_set().contains(y) {
            assert(x.filter(in_range(range)).contains(y));
        }
        if x.contains(y) && range.spec_contains(y.0 as int, y.1 as int) {
            assert(x.filter(in_range(range)).contains(y));
        }
    }
    assert(x2 =~= x);
    lemma_sorted_of(s);
}

/// Applying a mutation whose `before` records the workbook's present state
/// and then its inverse gives the workbook back; both applications succeed
/// and each keeps the workbook well formed.
pub proof fn law_inverse_restores(v: Seq<SheetView>, m: MutationView)
    requires
        model_wf(v),
        mutation_wf(m),
        records_present(v, m),
    ensures
        can_apply(v, m),
        model_wf(spec_apply(v, m)),
        can_apply(spec_apply(v, m), inverse_view(m)),
        spec_apply(spec_apply(v, m), inverse_view(m)) == v,
{
    let id = target_sheet(m);
    let i = sheet_pos(v, id);
    let v1 = spec_apply(v, m);
    match m {
        MutationView::SheetChanged { sheet_id, index, before, after } => {
            match (before, after) {
                (Some(b), Some(a)) => {
                    assert(v1 == v.update(i, a));
                    assert(forall|p: int, q: int| 0 <= p < q < v1.len() ==> (#[trigger] v1[p]).0 != (#[trigger] v1[q]).0) by {
                        assert forall|p: int, q: int| 0 <= p < q < v1.len() implies (#[trigger] v1[p]).0 != (#[trigger] v1[q]).0 by {
                            if p != i && q != i {
                                assert(v[p].0 != v[q].0);
                            } else if p == i {
                                assert(v[i].0 != v[q].0);
                            } else {
                                assert(v[p].0 != v[i].0);
                            }
                        }
                    }
                    assert(v1[i].0 == id);
                    lemma_sheet_pos(v1, i);
                    assert(spec_apply(v1, inverse_view(m)) =~= v);
                },
                (None, Some(a)) => {
                    assert(forall|k: int| 0 <= k < v.len() ==> (#[trigger] v[k]).0 != id);
                    assert(v1 == v.insert(index, a));
                    assert forall|p: int, q: int| 0 <= p < q < v1.len() implies (#[trigger] v1[p]).0 != (#[trigger] v1[q]).0 by {
                        if p < index && q < index {
                            assert(v[p].0 != v[q].0);
                        } else if p < index && q > index {
                            assert(v[p].0 != v[q - 1].0);
                        } else if p > index {
                            assert(v[p - 1].0 != v[q - 1].0);
                        } else if p == index {
                            assert(v[q - 1].0 != id);
                        } else {
                            assert(v[p].0 != id);
                        }
                    }
                    assert(v1[index].0 == id);
                    lemma_sheet_pos(v1, index);
                    assert(spec_apply(v1, inverse_view(m)) =~= v);
                },
                (Some(b), None) => {
                    assert(v1 == v.remove(i));
                    assert forall|p: int, q: int| 0 <= p < q < v1.len() implies (#[trigger] v1[p]).0 != (#[trigger] v1[q]).0 by {
                        if q < i {
                            assert(v[p].0 != v[q].0);
                        } else if p < i {
                            assert(v[p].0 != v[q + 1].0);
                        } else {
                            assert(v[p + 1].0 != v[q + 1].0);
                        }
                    }
                    assert forall|k: int| 0 <= k < v1.len() implies (#[trigger] v1[k]).0 != id by {
                        if k < i {
                            assert(v[k].0 != v[i].0);
                        } else {
                            assert(v[i].0 != v[k + 1].0);
                        }
                    }
                    lemma_sheet_pos_none(v1, id);
                    assert(spec_apply(v1, inverse_view(m)) =~= v);
                },
                (None, None) => {
                    assert(spec_apply(v1, inverse_view(m)) =~= v);
                },
            }
        },
        MutationView::CellChanged { sheet_id, row, column, before, after } => {
            lemma_cells_restored(v[i].2, row, column, before, after);
            assert(v1[i].0 == v[i].0);
            lemma_sheet_pos(v1, i);
            assert(spec_apply(v1, inverse_view(m)) =~= v);
        },
        MutationView::RangeChanged { sheet_id, range, before, after } => {
            lemma_range_restored(v[i].2, range, before, after);
            assert(v1[i].0 == v[i].0);
            lemma_sheet_pos(v1, i);
            assert(spec_apply(v1, inverse_view(m)) =~= v);
        },
        MutationView::PaneChanged { .. } => {
            lemma_sheet_pos(v1, i);
            assert(spec_apply(v1, inverse_view(m)) =~= v);
        },
        MutationView::RowDimensionsChanged { .. } => {
            lemma_sheet_pos(v1, i);
            assert(spec_apply(v1, inverse_view(m)) =~= v);
        },
        MutationView::ColumnDimensionsChanged { .. } => {
            lemma_sheet_pos(v1, i);
            assert(spec_apply(v1, inverse_view(m)) =~= v);
        },
    }
}

/// `x` lies before (`row`, `column`) in row-then-column order.
pub open spec fn before_position(x: CellView, row: u32, column: u32) -> bool {
    x.0 < row || (x.0 == row && x.1 < column)
}

/// The ordered cells with the cell at (`row`, `column`) replaced by
/// `after`, or removed when `after` is `None`.
pub(crate) fn put_cell(cells: Vec<CellModel>, row: u32, column: u32, after: Option<CellModel>) -> (res: Vec<CellModel>)
    requires
        sorted_cells(cells_view(cells@)),
        after matches Some(a) ==> a.row == row && a.column == column,
    ensures
        sorted_cells(cells_view(res@)),
        cells_view(res@).to_set() == cell_change(cells_view(cells@).to_set(), row, column, opt_cell_view(after)),
{
    let ghost w = cells_view(cells@);
    let ghost x = w.to_set();
    let ghost target = cell_change(x, row, column, opt_cell_view(after));
    let mut k: usize = 0;
    while k < cells.len() && (cells[k].row < row || (cells[k].row == row && cells[k].column < column))
        invariant
            w == cells_view(cells@),
            k <= cells@.len(),
            forall|j: int| 0 <= j < k ==> before_position(#[trigger] w[j], row, column),
        decreases cells@.len() - k,
    {
        proof {
            assert(w[k as int] == cell_view(cells@[k as int]));
        }
        k += 1;
    }
    proof {
        if k < cells@.len() {
            assert(w[k as int] == cell_view(cells@[k as int]));
            assert(!before_position(w[k as int], row, column));
            assert forall|j: int| k < j < w.len() implies !before_position(#[trigger] w[j], row, column) && !(w[j].0 == row && w[j].1 == column) by {
                assert(pos_before(w[k as int], w[j]));
            }
        }
    }
    let at = k < cells.len() && cells[k].row == row && cells[k].column == column;
    let mut out = cells;
    match after {
        Some(a) => {
            let ghost av = cell_view(a);
            if at {
                out.set(k, a);
                proof {
                    let r = cells_view(out@);
                    assert(r =~= w.update(k as int, av));
                    assert forall|i: int, j: int| 0 <= i < j < r.len() implies pos_before(#[trigger] r[i], #[trigger] r[j]) by {
                        if i != k && j != k {
                            assert(pos_before(w[i], w[j]));
                        } else if i == k {
                            assert(pos_before(w[i], w[j]));
                        } else {
                            assert(pos_before(w[i], w[j]));
                        }
                    }
                    assert forall|y: CellView| r.to_set().contains(y) <==> target.contains(y) by {
                        if r.to_set().contains(y) {
                            let m = choose|m: int| 0 <= m < r.len() && r[m] == y;
                            if m != k {
                                assert(w[m] == y);
                                assert(x.contains(y));
                                if m < k {
                                    assert(before_position(w[m], row, column));
                                }
                            }
                        }
                        if target.contains(y) {
                            if y == av {
                                assert(r[k as int] == y);
                            } else {
                                assert(x.contains(y));
                                let m = choose|m: int| 0 <= m < w.len() && w[m] == y;
                                if m == k {
                                    assert(w[m].0 == row && w[m].1 == column);
                                } else {
                                    assert(r[m] == y);
                                }
                            }
                        }
                    }
                    assert(r.to_set() =~= target);
                }
            } else {
                out.insert(k, a);
                proof {
                    let r = cells_view(out@);
                    assert(r =~= w.insert(k as int, av));
                    assert forall|i: int, j: int| 0 <= i < j < r.len() implies pos_before(#[trigger] r[i], #[trigger] r[j]) by {
                        if j < k {
                            assert(pos_before(w[i], w[j]));
                        } else if j == k {
                            assert(before_position(w[i], row, column));
                        } else if i < k {
                            assert(pos_before(w[i], w[j - 1]));
                        } else if i == k {
                            assert(!before_position(w[j - 1], row, column));
                            assert(!(w[j - 1].0 == row && w[j - 1].1 == column));
                        } else {
                            assert(pos_before(w[i - 1], w[j - 1]));
                        }
                    }
                    assert forall|y: CellView| r.to_set().contains(y) <==> target.contains(y) by {
                        if r.to_set().contains(y) {
                            let m = choose|m: int| 0 <= m < r.len() && r[m] == y;
                            if m < k {
                                assert(w[m] == y);
                                assert(x.contains(y));
                                assert(before_position(w[m], row, column));
                            } else if m > k {
                                assert(w[m - 1] == y);
                                assert(x.contains(y));
                            }
                        }
                        if target.contains(y) {
                            if y == av {
                                assert(r[k as int] == y);
                            } else {
                                assert(x.contains(y));
                                let m = choose|m: int| 0 <= m < w.len() && w[m] == y;
                                if m < k {
                                    assert(r[m] == y);
                                } else {
                                    assert(r[m + 1] == y);
                                }
                            }
                        }
                    }
                    assert(r.to_set() =~= target);
                }
            }
        },
        None => {
            if at {
                out.remove(k);
                proof {
                    let r = cells_view(out@);
                    assert(r =~= w.remove(k as int));
                    assert forall|i: int, j: int| 0 <= i < j < r.len() implies pos_before(#[trigger] r[i], #[trigger] r[j]) by {
                        if j < k {
                            assert(pos_before(w[i], w[j]));
                        } else if i < k {
                            assert(pos_before(w[i], w[j + 1]));
                        } else {
                            assert(pos_before(w[i + 1], w[j + 1]));
                        }
                    }
                    assert forall|y: CellView| r.to_set().contains(y) <==> target.contains(y) by {
                        if r.to_set().contains(y) {
                            let m = choose|m: int| 0 <= m < r.len() && r[m] == y;
                            if m < k {
                                assert(w[m] == y);
                                assert(x.contains(y));
                                assert(before_position(w[m], row, column));
                            } else {
                                assert(w[m + 1] == y);
                                assert(x.contains(y));
                            }
                        }
                        if target.contains(y) {
                            let m = choose|m: int| 0 <= m < w.len() && w[m] == y;
                            if m < k {
                                assert(r[m] == y);
                            } else if m > k {
                                assert(r[m - 1] == y);
                            }
                        }
                    }
                    assert(r.to_set() =~= target);
                }
            } else {
                proof {
                    assert forall|y: CellView| x.contains(y) <==> target.contains(y) by {
                        if x.contains(y) {
                            let m = choose|m: int| 0 <= m < w.len() && w[m] == y;
                            if m < k {
                                assert(before_position(w[m], row, column));
                            }
                        }
                    }
                    assert(x =~= target);
                }
            }
        },
    }
    out
}

/// The cells that lie outside `range`, in their order.
fn cells_outside(cells: Vec<CellModel>, range: GridRange) -> (res: Vec<CellModel>)
    ensures
        cells_view(res@) == cells_view(cells@).filter(off_range(range)),
{
    let ghost all = cells_view(cells@);
    let mut out: Vec<CellModel> = Vec::new();
    let mut j: usize = 0;
    proof {
        reveal(Seq::filter);
        assert(cells_view(out@) =~= all.subrange(0, 0).filter(off_range(range)));
    }
    while j < cells.len()
        invariant
            all == cells_view(cells@),
            j <= cells@.len(),
            cells_view(out@) == all.subrange(0, j as int).filter(off_range(range)),
        decreases cells@.len() - j,
    {
        let ghost before = out@;
        proof {
            assert(all.subrange(0, j + 1) =~= all.subrange(0, j as int).push(all[j as int]));
            all.subrange(0, j as int).lemma_filter_push(all[j as int], off_range(range));
        }
        let c = &cells[j];
        if !crate::grid::inside_range(c.row, c.column, range) {
            out.push(copy_cell(c));
            proof {
                assert(cells_view(out@) =~= cells_view(before).push(all[j as int]));
            }
        }
        j += 1;
    }
    proof {
        assert(all.subrange(0, j as int) =~= all);
    }
    out
}

/// The ordered cells with those of `range` replaced by `after`.
fn put_range(cells: Vec<CellModel>, range: GridRange, after: &Vec<CellModel>) -> (res: Vec<CellModel>)
    requires
        sorted_cells(cells_view(cells@)),
        sorted_cells(cells_view(after@)),
        forall|k: int| 0 <= k < after@.len() ==> range.spec_contains((#[trigger] cells_view(after@)[k]).0 as int, cells_view(after@)[k].1 as int),
    ensures
        sorted_cells(cells_view(res@)),
        cells_view(res@).to_set() == range_change(cells_view(cells@).to_set(), range, cells_view(after@)),
{
    let ghost x = cells_view(cells@).to_set();
    let ghost av = cells_view(after@);
    let mut out = cells_outside(cells, range);
    proof {
        lemma_filter_sorted(cells_view(cells@), off_range(range));
        assert(av.subrange(0, 0).to_set() =~= Set::<CellView>::empty());
        assert(cells_view(out@).to_set() =~= x.filter(off_range(range)) + av.subrange(0, 0).to_set());
    }
    let mut j: usize = 0;
    while j < after.len()
        invariant
            av == cells_view(after@),
            sorted_cells(av),
            forall|k: int| 0 <= k < after@.len() ==> range.spec_contains((#[trigger] av[k]).0 as int, av[k].1 as int),
            j <= after@.len(),
            sorted_cells(cells_view(out@)),
            cells_view(out@).to_set() == x.filter(off_range(range)) + av.subrange(0, j as int).to_set(),
        decreases after@.len() - j,
    {
        let c = copy_cell(&after[j]);
        let ghost before = cells_view(out@).to_set();
        let ghost cv = av[j as int];
        proof {
            assert(cell_view(after@[j as int]) == cv);
        }
        out = put_cell(out, c.row, c.column, Some(c));
        proof {
            let pre = av.subrange(0, j as int);
            let post = av.subrange(0, j + 1);
            let nx = x.filter(off_range(range)) + post.to_set();
            assert forall|y: CellView| cells_view(out@).to_set().contains(y) <==> nx.contains(y) by {
                if before.contains(y) && y.0 == cv.0 && y.1 == cv.1 {
                    if pre.to_set().contains(y) {
                        let m = choose|m: int| 0 <= m < pre.len() && pre[m] == y;
                        assert(av[m] == y);
                        assert(pos_before(av[m], av[j as int]));
                    } else {
                        assert(range.spec_contains(av[j as int].0 as int, av[j as int].1 as int));
                    }
                }
                if post.to_set().contains(y) {
                    let m = choose|m: int| 0 <= m < post.len() && post[m] == y;
                    if m < j {
                        assert(pre[m] == y);
                        assert(pos_before(av[m], av[j as int]));
                    } else {
                        assert(y == cv);
                    }
                }
                if pre.to_set().contains(y) {
                    let m = choose|m: int| 0 <= m < pre.len() && pre[m] == y;
                    assert(post[m] == y);
                }
                if y == cv {
                    assert(post[j as int] == y);
                }
            }
            assert(cells_view(out@).to_set() =~= nx);
        }
        j += 1;
    }
    proof {
        assert(av.subrange(0, av.len() as int) =~= av);
    }
    out
}

/// A copy of the cells, in order.
pub(crate) fn copy_cells(cells: &Vec<CellModel>) -> (res: Vec<CellModel>)
    ensures
        cells_view(res@) == cells_view(cells@),
{
    let mut out: Vec<CellModel> = Vec::new();
    let mut k: usize = 0;
    while k < cells.len()
        invariant
            k <= cells@.len(),
            cells_view(out@) == cells_view(cells@.subrange(0, k as int)),
        decreases cells@.len() - k,
    {
        let ghost before = out@;
        out.push(copy_cell(&cells[k]));
        proof {
            assert(cells_view(out@) =~= cells_view(before).push(cell_view(cells@[k as int])));
            assert(cells_view(cells@.subrange(0, k + 1)) =~= cells_view(cells@.subrange(0, k as int)).push(cell_view(cells@[k as int])));
        }
        k += 1;
    }
    proof {
        assert(cells@.subrange(0, cells@.len() as int) =~= cells@);
    }
    out
}

/// A copy of the sheet.
pub(crate) fn copy_sheet(s: &SheetModel) -> (res: SheetModel)
    ensures
        sheet_view(res) == sheet_view(*s),
{
    SheetModel {
        id: s.id.clone(),
        name: s.name.clone(),
        cells: copy_cells(&s.cells),
        metadata: s.metadata,
        merged_ranges: copy_ranges(&s.merged_ranges),
    }
}

/// A copy of the workbook.
pub(crate) fn copy_model(m: &SpreadsheetModel) -> (res: SpreadsheetModel)
    ensures
        model_view(res) == model_view(*m),
{
    let mut sheets: Vec<SheetModel> = Vec::new();
    let mut k: usize = 0;
    while k < m.sheets.len()
        invariant
            k <= m.sheets@.len(),
            sheets@.map_values(|s: SheetModel| sheet_view(s)) == model_view(*m).take(k as int),
        decreases m.sheets@.len() - k,
    {
        let ghost before = sheets@;
        sheets.push(copy_sheet(&m.sheets[k]));
        proof {
            assert(sheets@.map_values(|s: SheetModel| sheet_view(s)) =~= before.map_values(|s: SheetModel| sheet_view(s)).push(
                model_view(*m)[k as int],
            ));
            assert(model_view(*m).take(k + 1) =~= model_view(*m).take(k as int).push(model_view(*m)[k as int]));
        }
        k += 1;
    }
    proof {
        assert(model_view(*m).take(m.sheets@.len() as int) =~= model_view(*m));
    }
    SpreadsheetModel { sheets }
}

pub(crate) fn copy_opt_sheet(s: &Option<SheetModel>) -> (res: Option<SheetModel>)
    ensures
        opt_sheet_view(res) == opt_sheet_view(*s),
{
    match s {
        Some(x) => Some(copy_sheet(x)),
        None => None,
    }
}

pub(crate) fn copy_opt_cell(c: &Option<CellModel>) -> (res: Option<CellModel>)
    ensures
        opt_cell_view(res) == opt_cell_view(*c),
{
    match c {
        Some(x) => Some(copy_cell(x)),
        None => None,
    }
}

/// Refuses a sheet whose insertion position lies past the workbook's end.
pub const SHEET_INDEX_OUT_OF_RANGE: &'static str = "sheet 插入位置越界";

/// One reversible change to a workbook: the state before and after it.
#[derive(Debug, Clone, PartialEq, Eq)]
pub enum SpreadsheetMutation {
    SheetChanged { sheet_id: String, index: usize, before: Option<SheetModel>, after: Option<SheetModel> },
    CellChanged { address: CellAddress, before: Option<CellModel>, after: Option<CellModel> },
    /// Every materialised cell of `range`, before and after one range
    /// operation; undoing it exchanges the two.
    RangeChanged { sheet_id: String, range: GridRange, before: Vec<CellModel>, after: Vec<CellModel> },
    PaneChanged { sheet_id: String, before: FreezePane, after: FreezePane },
    RowDimensionsChanged { sheet_id: String, before: Option<u32>, after: Option<u32> },
    ColumnDimensionsChanged { sheet_id: String, before: Option<u32>, after: Option<u32> },
}

impl SpreadsheetMutation {
    pub open spec fn view(&self) -> MutationView {
        match *self {
            SpreadsheetMutation::SheetChanged { sheet_id, index, before, after } => MutationView::SheetChanged {
                sheet_id: sheet_id@,
                index: index as int,
                before: opt_sheet_view(before),
                after: opt_sheet_view(after),
            },
            SpreadsheetMutation::CellChanged { address, before, after } => MutationView::CellChanged {
                sheet_id: address.sheet_id@,
                row: address.row,
                column: address.column,
                before: opt_cell_view(before),
                after: opt_cell_view(after),
            },
            SpreadsheetMutation::RangeChanged { sheet_id, range, before, after } => MutationView::RangeChanged {
                sheet_id: sheet_id@,
                range,
                before: cells_view(before@),
                after: cells_view(after@),
            },
            SpreadsheetMutation::PaneChanged { sheet_id, before, after } =>
                MutationView::PaneChanged { sheet_id: sheet_id@, before, after },
            SpreadsheetMutation::RowDimensionsChanged { sheet_id, before, after } =>
                MutationView::RowDimensionsChanged { sheet_id: sheet_id@, before, after },
            SpreadsheetMutation::ColumnDimensionsChanged { sheet_id, before, after } =>
                MutationView::ColumnDimensionsChanged { sheet_id: sheet_id@, before, after },
        }
    }

    /// The mutation that undoes this one: before and after exchanged.
    pub fn inverse(&self) -> (res: SpreadsheetMutation)
        ensures
            res@ == inverse_view(self@),
            inverse_view(res@) == self@,
    {
        match self {
            SpreadsheetMutation::SheetChanged { sheet_id, index, before, after } => SpreadsheetMutation::SheetChanged {
                sheet_id: sheet_id.clone(),
                index: *index,
                before: copy_opt_sheet(after),
                after: copy_opt_sheet(before),
            },
            SpreadsheetMutation::CellChanged { address, before, after } => SpreadsheetMutation::CellChanged {
                address: CellAddress { sheet_id: address.sheet_id.clone(), row: address.row, column: address.column },
                before: copy_opt_cell(after),
                after: copy_opt_cell(before),
            },
            SpreadsheetMutation::RangeChanged { sheet_id, range, before, after } => SpreadsheetMutation::RangeChanged {
                sheet_id: sheet_id.clone(),
                range: *range,
                before: copy_cells(after),
                after: copy_cells(before),
            },
            SpreadsheetMutation::PaneChanged { sheet_id, before, after } =>
                SpreadsheetMutation::PaneChanged { sheet_id: sheet_id.clone(), before: *after, after: *before },
            SpreadsheetMutation::RowDimensionsChanged { sheet_id, before, after } =>
                SpreadsheetMutation::RowDimensionsChanged { sheet_id: sheet_id.clone(), before: *after, after: *before },
            SpreadsheetMutation::ColumnDimensionsChanged { sheet_id, before, after } =>
                SpreadsheetMutation::ColumnDimensionsChanged { sheet_id: sheet_id.clone(), before: *after, after: *before },
        }
    }
}

/// The position of the sheet with id `id`, if any.
pub(crate) fn find_sheet(model: &SpreadsheetModel, id: &String) -> (res: Option<usize>)
    ensures
        match res {
            Some(k) => k < model.sheets@.len() && model.sheets@[k as int].id@ == id@,
            None => forall|k: int| 0 <= k < model.sheets@.len() ==> (#[trigger] model.sheets@[k]).id@ != id@,
        },
{
    let mut k: usize = 0;
    while k < model.sheets.len()
        invariant
            k <= model.sheets@.len(),
            forall|j: int| 0 <= j < k ==> (#[trigger] model.sheets@[j]).id@ != id@,
        decreases model.sheets@.len() - k,
    {
        if same_text(model.sheets[k].id.as_str(), id.as_str()) {
            return Some(k);
        }
        k += 1;
    }
    None
}

/// The sheet at `k` with its metadata replaced.
fn set_metadata(model: &mut SpreadsheetModel, k: usize, md: SheetMetadata)
    requires
        k < old(model).sheets@.len(),
    ensures
        model_view(*final(model)) == model_view(*old(model)).update(k as int, with_metadata(model_view(*old(model))[k as int], md)),
{
    let sheet = model.sheets.remove(k);
    let SheetModel { id, name, cells, metadata: _, merged_ranges } = sheet;
    model.sheets.insert(k, SheetModel { id, name, cells, metadata: md, merged_ranges });
    proof {
        assert(model_view(*final(model)) =~= model_view(*old(model)).update(k as int, with_metadata(model_view(*old(model))[k as int], md)));
    }
}

/// Applies a mutation to the workbook. A mutation that names a missing
/// sheet, or that creates a sheet past the workbook's end, is refused and
/// leaves the workbook as it was.
pub(crate) fn apply_checked(model: &mut SpreadsheetModel, mutation: &SpreadsheetMutation) -> (res: Result<(), SpreadsheetEngineError>)
    requires
        model_wf(model_view(*old(model))),
        mutation_wf(mutation@),
    ensures
        res is Ok <==> can_apply(model_view(*old(model)), mutation@),
        res is Ok ==> model_view(*final(model)) == spec_apply(model_view(*old(model)), mutation@),
        res is Ok ==> model_wf(model_view(*final(model))),
        res is Err ==> *final(model) == *old(model),
        res matches Err(e) ==> match mutation@ {
            MutationView::SheetChanged { .. } => e matches SpreadsheetEngineError::InvalidMutation(m) && m@ == SHEET_INDEX_OUT_OF_RANGE@,
            _ => e matches SpreadsheetEngineError::MissingSheet(s) && s@ == target_sheet(mutation@),
        },
{
    let ghost v0 = model_view(*model);
    let ghost mv = mutation@;
    let target = match mutation {
        SpreadsheetMutation::SheetChanged { sheet_id, .. } => sheet_id,
        SpreadsheetMutation::CellChanged { address, .. } => &address.sheet_id,
        SpreadsheetMutation::RangeChanged { sheet_id, .. } => sheet_id,
        SpreadsheetMutation::PaneChanged { sheet_id, .. } => sheet_id,
        SpreadsheetMutation::RowDimensionsChanged { sheet_id, .. } => sheet_id,
        SpreadsheetMutation::ColumnDimensionsChanged { sheet_id, .. } => sheet_id,
    };
    let found = find_sheet(model, target);
    proof {
        assert(target@ == target_sheet(mv));
        match found {
            Some(k) => {
                assert(v0[k as int].0 == model.sheets@[k as int].id@);
                lemma_sheet_pos(v0, k as int);
            },
            None => {
                assert forall|j: int| 0 <= j < v0.len() implies (#[trigger] v0[j]).0 != target@ by {
                    assert(v0[j].0 == model.sheets@[j].id@);
                }
                lemma_sheet_pos_none(v0, target@);
            },
        }
    }
    match mutation {
        SpreadsheetMutation::SheetChanged { index, after, .. } => {
            match after {
                Some(s) => {
                    let copy = copy_sheet(s);
                    match found {
                        Some(k) => {
                            model.sheets.set(k, copy);
                            proof {
                                assert(model_view(*model) =~= v0.update(k as int, sheet_view(copy)));
                            }
                        },
                        None => {
                            if *index <= model.sheets.len() {
                                model.sheets.insert(*index, copy);
                                proof {
                                    assert(model_view(*model) =~= v0.insert(*index as int, sheet_view(copy)));
                                }
                            } else {
                                return Err(SpreadsheetEngineError::InvalidMutation(String::from_str(SHEET_INDEX_OUT_OF_RANGE)));
                            }
                        },
                    }
                },
                None => {
                    if let Some(k) = found {
                        model.sheets.remove(k);
                        proof {
                            assert(model_view(*model) =~= v0.remove(k as int));
                        }
                    }
                },
            }
            proof {
                lemma_apply_keeps_wf(v0, mv);
            }
            Ok(())
        },
        _ => {
            let k = match found {
                Some(k) => k,
                None => {
                    return Err(SpreadsheetEngineError::MissingSheet(target.clone()));
                },
            };
            match mutation {
                SpreadsheetMutation::CellChanged { address, after, .. } => {
                    let sheet = model.sheets.remove(k);
                    let SheetModel { id, name, cells, metadata, merged_ranges } = sheet;
                    let new_cells = put_cell(cells, address.row, address.column, copy_opt_cell(after));
                    proof {
                        lemma_sorted_of(cells_view(new_cells@));
                    }
                    model.sheets.insert(k, SheetModel { id, name, cells: new_cells, metadata, merged_ranges });
                    proof {
                        assert(model_view(*model) =~= spec_apply(v0, mv));
                    }
                },
                SpreadsheetMutation::RangeChanged { range, after, .. } => {
                    let sheet = model.sheets.remove(k);
                    let SheetModel { id, name, cells, metadata, merged_ranges } = sheet;
                    proof {
                        assert(v0[k as int].2 == cells_view(cells@));
                        assert(sorted_cells(v0[k as int].2));
                        assert forall|j: int| 0 <= j < after@.len() implies range.spec_contains((#[trigger] cells_view(after@)[j]).0 as int, cells_view(after@)[j].1 as int) by {
                            assert(range.spec_contains(cells_view(after@)[j].0 as int, cells_view(after@)[j].1 as int));
                        }
                    }
                    let new_cells = put_range(cells, *range, after);
                    proof {
                        lemma_sorted_of(cells_view(new_cells@));
                    }
                    model.sheets.insert(k, SheetModel { id, name, cells: new_cells, metadata, merged_ranges });
                    proof {
                        assert(model_view(*model) =~= spec_apply(v0, mv));
                    }
                },
                SpreadsheetMutation::PaneChanged { after, .. } => {
                    let md = SheetMetadata { freeze: *after, ..model.sheets[k].metadata };
                    set_metadata(model, k, md);
                    proof {
                        assert(model_view(*model) =~= spec_apply(v0, mv));
                    }
                },
                SpreadsheetMutation::RowDimensionsChanged { after, .. } => {
                    let md = SheetMetadata { row_count: *after, ..model.sheets[k].metadata };
                    set_metadata(model, k, md);
                    proof {
                        assert(model_view(*model) =~= spec_apply(v0, mv));
                    }
                },
                SpreadsheetMutation::ColumnDimensionsChanged { after, .. } => {
                    let md = SheetMetadata { column_count: *after, ..model.sheets[k].metadata };
                    set_metadata(model, k, md);
                    proof {
                        assert(model_view(*model) =~= spec_apply(v0, mv));
                    }
                },
                SpreadsheetMutation::SheetChanged { .. } => {},
            }
            proof {
                lemma_apply_keeps_wf(v0, mv);
            }
            Ok(())
        },
    }
}

/// Applying a well-formed mutation keeps the workbook well formed.
pub proof fn lemma_apply_keeps_wf(v: Seq<SheetView>, m: MutationView)
    requires
        model_wf(v),
        mutation_wf(m),
        can_apply(v, m),
    ensures
        model_wf(spec_apply(v, m)),
{
    let id = target_sheet(m);
    let i = sheet_pos(v, id);
    let v1 = spec_apply(v, m);
    match m {
        MutationView::SheetChanged { sheet_id, index, before, after } => {
            match after {
                Some(a) => {
                    if i >= 0 {
                        assert forall|p: int, q: int| 0 <= p < q < v1.len() implies (#[trigger] v1[p]).0 != (#[trigger] v1[q]).0 by {
                            if p != i && q != i {
                                assert(v[p].0 != v[q].0);
                            } else if p == i {
                                assert(v[i].0 != v[q].0);
                            } else {
                                assert(v[p].0 != v[i].0);
                            }
                        }
                    } else {
                        assert(forall|k: int| 0 <= k < v.len() ==> (#[trigger] v[k]).0 != id);
                        assert forall|p: int, q: int| 0 <= p < q < v1.len() implies (#[trigger] v1[p]).0 != (#[trigger] v1[q]).0 by {
                            if p < index && q < index {
                                assert(v[p].0 != v[q].0);
                            } else if p < index && q > index {
                                assert(v[p].0 != v[q - 1].0);
                            } else if p > index {
                                assert(v[p - 1].0 != v[q - 1].0);
                            } else if p == index {
                                assert(v[q - 1].0 != id);
                            } else {
                                assert(v[p].0 != id);
                            }
                        }
                    }
                    assert forall|k: int| 0 <= k < v1.len() implies sorted_cells(#[trigger] v1[k].2) by {
                        if i < 0 && k > index {
                            assert(v1[k] == v[k - 1]);
                        }
                    }
                },
                None => {
                    if i >= 0 {
                        assert forall|p: int, q: int| 0 <= p < q < v1.len() implies (#[trigger] v1[p]).0 != (#[trigger] v1[q]).0 by {
                            if q < i {
                                assert(v[p].0 != v[q].0);
                            } else if p < i {
                                assert(v[p].0 != v[q + 1].0);
                            } else {
                                assert(v[p + 1].0 != v[q + 1].0);
                            }
                        }
                        assert forall|k: int| 0 <= k < v1.len() implies sorted_cells(#[trigger] v1[k].2) by {
                            if k >= i {
                                assert(v1[k] == v[k + 1]);
                            }
                        }
                    }
                },
            }
        },
        MutationView::CellChanged { row, column, after, .. } => {
            lemma_cells_restored(v[i].2, row, column, cell_at(v[i].2, row, column), after);
            assert forall|p: int, q: int| 0 <= p < q < v1.len() implies (#[trigger] v1[p]).0 != (#[trigger] v1[q]).0 by {
                assert(v[p].0 != v[q].0);
            }
        },
        MutationView::RangeChanged { range, after, .. } => {
            let s = v[i].2;
            let inr = in_range(range);
            lemma_filter_sorted(s, inr);
            lemma_range_restored(s, range, s.filter(inr), after);
            assert forall|p: int, q: int| 0 <= p < q < v1.len() implies (#[trigger] v1[p]).0 != (#[trigger] v1[q]).0 by {
                assert(v[p].0 != v[q].0);
            }
        },
        _ => {
            assert forall|p: int, q: int| 0 <= p < q < v1.len() implies (#[trigger] v1[p]).0 != (#[trigger] v1[q]).0 by {
                assert(v[p].0 != v[q].0);
            }
        },
    }
}

/// After a mutation that recorded the present state, its inverse records
/// the new present state and has the shape the engine records.
pub proof fn lemma_inverse_records(v: Seq<SheetView>, m: MutationView)
    requires
        model_wf(v),
        mutation_wf(m),
        records_present(v, m),
    ensures
        mutation_wf(inverse_view(m)),
        records_present(spec_apply(v, m), inverse_view(m)),
{
    law_inverse_restores(v, m);
    let id = target_sheet(m);
    let i = sheet_pos(v, id);
    let v1 = spec_apply(v, m);
    match m {
        MutationView::SheetChanged { sheet_id, index, before, after } => {
            if i >= 0 {
                assert(v[i].0 == id);
            }
            match after {
                Some(a) => {
                    let k = if i >= 0 { i } else { index };
                    assert(v1[k] == a);
                    lemma_sheet_pos(v1, k);
                },
                None => {
                    if i >= 0 {
                        assert forall|k: int| 0 <= k < v1.len() implies (#[trigger] v1[k]).0 != id by {
                            if k < i {
                                assert(v[k].0 != v[i].0);
                            } else {
                                assert(v[i].0 != v[k + 1].0);
                            }
                        }
                    }
                    lemma_sheet_pos_none(v1, id);
                },
            }
        },
        MutationView::CellChanged { row, column, before, after, .. } => {
            lemma_cells_restored(v[i].2, row, column, before, after);
            lemma_sheet_pos(v1, i);
            let t = v1[i].2;
            let x1 = cell_change(v[i].2.to_set(), row, column, after);
            assert(t.to_set() == x1);
            if before matches Some(b) {
                let c = choose|k: int| 0 <= k < v[i].2.len() && v[i].2[k].0 == row && v[i].2[k].1 == column;
                assert(v[i].2.to_set().contains(v[i].2[c]));
            }
            match after {
                Some(a) => {
                    assert(x1.contains(a));
                    let k = choose|k: int| 0 <= k < t.len() && t[k] == a;
                    assert(exists|k: int| 0 <= k < t.len() && t[k].0 == row && t[k].1 == column);
                    let c = choose|k: int| 0 <= k < t.len() && t[k].0 == row && t[k].1 == column;
                    assert(t.to_set().contains(t[c]));
                    assert(t[c] == a);
                },
                None => {
                    if exists|k: int| 0 <= k < t.len() && t[k].0 == row && t[k].1 == column {
                        let c = choose|k: int| 0 <= k < t.len() && t[k].0 == row && t[k].1 == column;
                        assert(t.to_set().contains(t[c]));
                    }
                },
            }
        },
        MutationView::RangeChanged { range, before, after, .. } => {
            lemma_range_restored(v[i].2, range, before, after);
            lemma_sheet_pos(v1, i);
            let t = v1[i].2;
            let inr = in_range(range);
            assert forall|y: CellView| after.to_set().contains(y) <==> t.to_set().filter(inr).contains(y) by {
                if after.to_set().contains(y) {
                    let k = choose|k: int| 0 <= k < after.len() && after[k] == y;
                    assert(range.spec_contains(after[k].0 as int, after[k].1 as int));
                }
            }
            assert(after.to_set() =~= t.to_set().filter(inr));
            assert forall|k: int| 0 <= k < before.len() implies range.spec_contains((#[trigger] before[k]).0 as int, before[k].1 as int) by {
                assert(before.to_set().contains(before[k]));
                assert(v[i].2.to_set().filter(inr).contains(before[k]));
            }
        },
        _ => {
            lemma_sheet_pos(v1, i);
        },
    }
}

/// `ms` applied in turn to `v`, each recording the state it meets and of
/// the shape the engine records, reaches `w`.
pub open spec fn replays(v: Seq<SheetView>, ms: Seq<MutationView>, w: Seq<SheetView>) -> bool
    decreases ms.len(),
{
    if ms.len() == 0 {
        v == w
    } else {
        &&& model_wf(v)
        &&& mutation_wf(ms[0])
        &&& records_present(v, ms[0])
        &&& replays(spec_apply(v, ms[0]), ms.drop_first(), w)
    }
}

/// The mutations that undo `ms`: their inverses, last first.
pub open spec fn undo_views(ms: Seq<MutationView>) -> Seq<MutationView> {
    Seq::new(ms.len(), |k: int| inverse_view(ms[ms.len() - 1 - k]))
}

pub(crate) proof fn lemma_replays_append(a: Seq<SheetView>, xs: Seq<MutationView>, b: Seq<SheetView>, y: MutationView, c: Seq<SheetView>)
    requires
        replays(a, xs, b),
        replays(b, seq![y], c),
    ensures
        replays(a, xs.push(y), c),
    decreases xs.len(),
{
    if xs.len() == 0 {
        assert(xs.push(y) =~= seq![y]);
    } else {
        lemma_replays_append(spec_apply(a, xs[0]), xs.drop_first(), b, y, c);
        assert(xs.push(y).drop_first() =~= xs.drop_first().push(y));
    }
}

/// Replaying a batch and then its undo mutations, last first, gives the
/// workbook back; undoing is itself a replay.
pub proof fn law_undo_restores(v: Seq<SheetView>, ms: Seq<MutationView>, w: Seq<SheetView>)
    requires
        replays(v, ms, w),
    ensures
        replays(w, undo_views(ms), v),
    decreases ms.len(),
{
    if ms.len() == 0 {
        assert(undo_views(ms) =~= Seq::<MutationView>::empty());
    } else {
        let m = ms[0];
        let v1 = spec_apply(v, m);
        law_undo_restores(v1, ms.drop_first(), w);
        law_inverse_restores(v, m);
        lemma_inverse_records(v, m);
        let single = seq![inverse_view(m)];
        assert(single.drop_first() =~= Seq::<MutationView>::empty());
        assert(single[0] == inverse_view(m));
        assert(replays(spec_apply(v1, inverse_view(m)), single.drop_first(), v));
        assert(replays(v1, single, v));
        lemma_replays_append(w, undo_views(ms.drop_first()), v1, inverse_view(m), v);
        assert(undo_views(ms.drop_first()).push(inverse_view(m)) =~= undo_views(ms));
    }
}

/// Undoing the undo mutations of a batch gives the batch back.
pub proof fn law_redo_is_the_batch(ms: Seq<MutationView>)
    ensures
        undo_views(undo_views(ms)) == ms,
{
    assert(undo_views(undo_views(ms)) =~= ms);
}

/// The refusal of a workbook whose sheet ids repeat or whose cells are out
/// of row-then-column order.
pub const MODEL_NOT_CANONICAL: &'static str = "workbook 的 sheet id 重复或单元格未按行列排序";

/// The refusal of a mutation whose new sheet, cell or range contents do not
/// match where it writes them.
pub const MUTATION_MALFORMED: &'static str = "mutation 的内容与其位置不符";

/// Whether the cells are in strictly increasing row-then-column order.
fn cells_sorted(cells: &Vec<CellModel>) -> (res: bool)
    ensures
        res == sorted_cells(cells_view(cells@)),
{
    let ghost v = cells_view(cells@);
    let mut k: usize = 1;
    if cells.len() == 0 {
        return true;
    }
    while k < cells.len()
        invariant
            1 <= k <= cells@.len(),
            v == cells_view(cells@),
            sorted_cells(v.take(k as int)),
        decreases cells@.len() - k,
    {
        let a = &cells[k - 1];
        let b = &cells[k];
        if !(a.row < b.row || (a.row == b.row && a.column < b.column)) {
            proof {
                assert(!pos_before(v[k - 1], v[k as int]));
            }
            return false;
        }
        proof {
            assert(pos_before(v[k - 1], v[k as int]));
            assert forall|i: int, j: int| 0 <= i < j < k + 1 implies pos_before(#[trigger] v.take(k + 1)[i], #[trigger] v.take(k + 1)[j]) by {
                if j < k {
                    assert(v.take(k as int)[i] == v[i] && v.take(k as int)[j] == v[j]);
                } else if i < k - 1 {
                    assert(v.take(k as int)[i] == v[i] && v.take(k as int)[k - 1] == v[k - 1]);
                }
            }
        }
        k += 1;
    }
    proof {
        assert(v.take(cells@.len() as int) =~= v);
    }
    true
}

/// Whether a workbook is canonical: distinct sheet ids and sorted cells.
fn model_canonical(model: &SpreadsheetModel) -> (res: bool)
    ensures
        res == model_wf(model_view(*model)),
{
    let ghost v = model_view(*model);
    let mut i: usize = 0;
    while i < model.sheets.len()
        invariant
            i <= model.sheets@.len(),
            v == model_view(*model),
            forall|a: int, b: int| 0 <= a < b < v.len() && a < i ==> (#[trigger] v[a]).0 != (#[trigger] v[b]).0,
            forall|a: int| 0 <= a < i ==> sorted_cells(#[trigger] v[a].2),
        decreases model.sheets@.len() - i,
    {
        proof {
            assert(v[i as int].2 == cells_view(model.sheets@[i as int].cells@));
        }
        if !cells_sorted(&model.sheets[i].cells) {
            return false;
        }
        let mut j: usize = i + 1;
        while j < model.sheets.len()
            invariant
                i < j <= model.sheets@.len(),
                v == model_view(*model),
                forall|b: int| i < b < j ==> v[i as int].0 != (#[trigger] v[b]).0,
            decreases model.sheets@.len() - j,
        {
            if same_text(model.sheets[i].id.as_str(), model.sheets[j].id.as_str()) {
                proof {
                    assert(v[i as int].0 == v[j as int].0);
                }
                return false;
            }
            j += 1;
        }
        i += 1;
    }
    true
}

/// Whether every cell lies inside the range.
fn all_inside(cells: &Vec<CellModel>, range: GridRange) -> (res: bool)
    ensures
        res == forall|k: int|
            0 <= k < cells_view(cells@).len() ==> range.spec_contains(
                (#[trigger] cells_view(cells@)[k]).0 as int,
                cells_view(cells@)[k].1 as int,
            ),
{
    let ghost v = cells_view(cells@);
    let mut k: usize = 0;
    while k < cells.len()
        invariant
            k <= cells@.len(),
            v == cells_view(cells@),
            forall|i: int| 0 <= i < k ==> range.spec_contains((#[trigger] v[i]).0 as int, v[i].1 as int),
        decreases cells@.len() - k,
    {
        proof {
            assert(v[k as int].0 == cells@[k as int].row && v[k as int].1 == cells@[k as int].column);
        }
        if !inside_range(cells[k].row, cells[k].column, range) {
            return false;
        }
        k += 1;
    }
    true
}

/// Whether a mutation's new contents sit where it writes them.
fn mutation_fits(m: &SpreadsheetMutation) -> (res: bool)
    ensures
        res == mutation_wf(m@),
{
    match m {
        SpreadsheetMutation::SheetChanged { sheet_id, after, .. } => match after {
            Some(s) => same_text(s.id.as_str(), sheet_id.as_str()) && cells_sorted(&s.cells),
            None => true,
        },
        SpreadsheetMutation::CellChanged { address, after, .. } => match after {
            Some(c) => c.row == address.row && c.column == address.column,
            None => true,
        },
        SpreadsheetMutation::RangeChanged { range, after, .. } => cells_sorted(after) && all_inside(after, *range),
        _ => true,
    }
}

/// Applies a mutation to a workbook. A workbook whose sheet ids repeat or
/// whose cells are out of order, and a mutation whose contents do not sit
/// where it writes them, are refused; otherwise the mutation applies when
/// its sheet exists (or, for a sheet it creates, its position is inside the
/// workbook), and the workbook is left unchanged on any refusal.
pub fn apply_mutation(model: &mut SpreadsheetModel, mutation: &SpreadsheetMutation) -> (res: Result<(), SpreadsheetEngineError>)
    ensures
        res is Ok <==> model_wf(model_view(*old(model))) && mutation_wf(mutation@) && can_apply(
            model_view(*old(model)),
            mutation@,
        ),
        res is Ok ==> model_view(*final(model)) == spec_apply(model_view(*old(model)), mutation@),
        res is Ok ==> model_wf(model_view(*final(model))),
        res is Err ==> *final(model) == *old(model),
        res matches Err(e) ==> if !model_wf(model_view(*old(model))) {
            e matches SpreadsheetEngineError::InvalidMutation(m) && m@ == MODEL_NOT_CANONICAL@
        } else if !mutation_wf(mutation@) {
            e matches SpreadsheetEngineError::InvalidMutation(m) && m@ == MUTATION_MALFORMED@
        } else {
            match mutation@ {
                MutationView::SheetChanged { .. } => e matches SpreadsheetEngineError::InvalidMutation(m) && m@ == SHEET_INDEX_OUT_OF_RANGE@,
                _ => e matches SpreadsheetEngineError::MissingSheet(s) && s@ == target_sheet(mutation@),
            }
        },
{
    if !model_canonical(model) {
        return Err(SpreadsheetEngineError::InvalidMutation(MODEL_NOT_CANONICAL.to_string()));
    }
    if !mutation_fits(mutation) {
        return Err(SpreadsheetEngineError::InvalidMutation(MUTATION_MALFORMED.to_string()));
    }
    apply_checked(model, mutation)
}

/// The workbook after the mutations, applied in turn.
pub open spec fn apply_all(v: Seq<SheetView>, ms: Seq<MutationView>) -> Seq<SheetView>
    decreases ms.len(),
{
    if ms.len() == 0 {
        v
    } else {
        spec_apply(apply_all(v, ms.drop_last()), ms.last())
    }
}

/// Each mutation, applied in turn, is well formed and records the state it
/// meets.
pub open spec fn applies_in_turn(v: Seq<SheetView>, ms: Seq<MutationView>) -> bool
    decreases ms.len(),
{
    ms.len() == 0 || (applies_in_turn(v, ms.drop_last()) && mutation_wf(ms.last()) && records_present(
        apply_all(v, ms.drop_last()),
        ms.last(),
    ))
}

/// A prefix of mutations that apply in turn applies in turn.
pub proof fn lemma_applies_prefix(v: Seq<SheetView>, ms: Seq<MutationView>, k: int)
    requires
        applies_in_turn(v, ms),
        0 <= k <= ms.len(),
    ensures
        applies_in_turn(v, ms.take(k)),
    decreases ms.len() - k,
{
    if k < ms.len() {
        lemma_applies_prefix(v, ms, k + 1);
        assert(ms.take(k + 1).drop_last() =~= ms.take(k));
    } else {
        assert(ms.take(k) =~= ms);
    }
}

} // verus!
