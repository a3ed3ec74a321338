//! A worksheet after a row or column insert or delete: its cells and merged
//! regions follow the edit, its frozen band and declared size grow or shrink,
//! and the formulas in it that read the edited sheet are rewritten.

use vstd::prelude::*;
use crate::remap::{
    SheetAxis, RemapOp, spec_remap_position, position_fits, remap_position, spec_remap_grid_range,
    remap_grid_range, spec_remap_freeze, freeze_fits, remap_freeze, spec_remap_dimension, remap_dimension,
    law_remap_position_monotone, law_delete_undoes_insert_position, law_delete_undoes_insert_range,
    law_delete_undoes_insert_freeze,
};
use crate::rewrite::{rewrite, rewrite_formula};
use crate::dependency::{SheetModel, CellModel, SheetMetadata, FreezePane};
use crate::grid::GridRange;
use crate::viewport::{CellView, cell_view, cells_view};
use crate::mutation::{SheetView, sheet_view, sorted_cells, pos_before, MutationView, model_wf, spec_apply, apply_all, applies_in_turn, mutation_wf, records_present, sheet_pos, lemma_sheet_pos, target_sheet};
use crate::sheet_edits::SpreadsheetEngineError;
use crate::sheet_name::{SheetLookup, normalize, normalize_chars};
use crate::dependency::SpreadsheetModel;
use crate::mutation::model_view;
use crate::text::chars_of;
use crate::cells::{copy_opt_value, copy_attrs, copy_text};

verus! {

/// The refusal of an edit that would move something past the last row or
/// column a coordinate can name.
pub const STRUCTURAL_EDIT_OVERFLOW: &'static str = "行列插入或删除超出坐标范围";

/// A cell's coordinate on the edited axis.
pub open spec fn axis_pos(c: CellView, axis: SheetAxis) -> int {
    match axis {
        SheetAxis::Row => c.0 as int,
        SheetAxis::Column => c.1 as int,
    }
}

/// A formula's text after the edit of the sheet `edited`.
pub open spec fn moved_formula(
    f: Option<Seq<char>>,
    edited: Seq<char>,
    lookup: Map<Seq<char>, Seq<char>>,
    axis: SheetAxis,
    op: RemapOp,
) -> Option<Seq<char>> {
    match f {
        Some(t) => Some(rewrite(t, 0, edited, lookup, edited, axis, op)),
        None => None,
    }
}

/// A cell moved to `p` on the edited axis, its formula rewritten.
pub open spec fn moved_cell_view(
    c: CellView,
    p: int,
    edited: Seq<char>,
    lookup: Map<Seq<char>, Seq<char>>,
    axis: SheetAxis,
    op: RemapOp,
) -> CellView {
    let f = moved_formula(c.2, edited, lookup, axis, op);
    match axis {
        SheetAxis::Row => (p as u32, c.1, f, c.3, c.4, c.5),
        SheetAxis::Column => (c.0, p as u32, f, c.3, c.4, c.5),
    }
}

/// The cells that survive the edit, moved, in their order.
pub open spec fn moved_cells(
    cs: Seq<CellView>,
    edited: Seq<char>,
    lookup: Map<Seq<char>, Seq<char>>,
    axis: SheetAxis,
    op: RemapOp,
) -> Seq<CellView>
    decreases cs.len(),
{
    if cs.len() == 0 {
        Seq::empty()
    } else {
        let rest = moved_cells(cs.drop_last(), edited, lookup, axis, op);
        match spec_remap_position(axis_pos(cs.last(), axis), op) {
            None => rest,
            Some(p) => rest.push(moved_cell_view(cs.last(), p, edited, lookup, axis, op)),
        }
    }
}

/// The merged regions that survive the edit, moved, in their order.
pub open spec fn moved_ranges(rs: Seq<GridRange>, axis: SheetAxis, op: RemapOp) -> Seq<GridRange>
    decreases rs.len(),
{
    if rs.len() == 0 {
        Seq::empty()
    } else {
        let rest = moved_ranges(rs.drop_last(), axis, op);
        match spec_remap_grid_range(rs.last(), axis, op) {
            None => rest,
            Some(r) => rest.push(r),
        }
    }
}

/// The frozen band and the declared size after the edit; the band never
/// exceeds the declared size.
pub open spec fn moved_metadata(md: SheetMetadata, axis: SheetAxis, op: RemapOp) -> SheetMetadata {
    match axis {
        SheetAxis::Row => {
            let frozen = spec_remap_freeze(md.freeze.rows as int, op);
            let count = match md.row_count {
                Some(n) => Some(spec_remap_dimension(n as int, op) as u32),
                None => None,
            };
            let rows = match count {
                Some(n) => if frozen <= n { frozen } else { n as int },
                None => frozen,
            };
            SheetMetadata {
                freeze: FreezePane { rows: rows as u32, columns: md.freeze.columns },
                row_count: count,
                column_count: md.column_count,
            }
        },
        SheetAxis::Column => {
            let frozen = spec_remap_freeze(md.freeze.columns as int, op);
            let count = match md.column_count {
                Some(n) => Some(spec_remap_dimension(n as int, op) as u32),
                None => None,
            };
            let columns = match count {
                Some(n) => if frozen <= n { frozen } else { n as int },
                None => frozen,
            };
            SheetMetadata {
                freeze: FreezePane { rows: md.freeze.rows, columns: columns as u32 },
                row_count: md.row_count,
                column_count: count,
            }
        },
    }
}

/// The edit moves no cell, frozen band or declared size past what a
/// coordinate can name.
pub open spec fn remap_fits(s: SheetView, axis: SheetAxis, op: RemapOp) -> bool {
    let (frozen, count) = match axis {
        SheetAxis::Row => (s.3.freeze.rows, s.3.row_count),
        SheetAxis::Column => (s.3.freeze.columns, s.3.column_count),
    };
    &&& forall|k: int| 0 <= k < s.2.len() ==> position_fits(axis_pos(#[trigger] s.2[k], axis), op)
    &&& freeze_fits(frozen as int, op)
    &&& (op matches RemapOp::Insert(_, n) ==> (count matches Some(d) ==> d + n <= u32::MAX))
}

/// The sheet after a row or column edit of the sheet `edited`, or `None`
/// when the edit does not fit.
pub open spec fn spec_remap_sheet(
    s: SheetView,
    axis: SheetAxis,
    op: RemapOp,
    edited: Seq<char>,
    lookup: Map<Seq<char>, Seq<char>>,
) -> Option<SheetView> {
    if remap_fits(s, axis, op) {
        Some((s.0, s.1, moved_cells(s.2, edited, lookup, axis, op), moved_metadata(s.3, axis, op), moved_ranges(s.4, axis, op)))
    } else {
        None
    }
}

/// `x` is what the edit makes of the cell `c`.
pub open spec fn is_image(
    c: CellView,
    x: CellView,
    edited: Seq<char>,
    lookup: Map<Seq<char>, Seq<char>>,
    axis: SheetAxis,
    op: RemapOp,
) -> bool {
    spec_remap_position(axis_pos(c, axis), op) is Some && x == moved_cell_view(
        c,
        spec_remap_position(axis_pos(c, axis), op).unwrap(),
        edited,
        lookup,
        axis,
        op,
    )
}

/// Every moved cell is the image of a cell of the input.
proof fn lemma_moved_cells_origin(
    cs: Seq<CellView>,
    edited: Seq<char>,
    lookup: Map<Seq<char>, Seq<char>>,
    axis: SheetAxis,
    op: RemapOp,
)
    ensures
        forall|x: int| 0 <= x < moved_cells(cs, edited, lookup, axis, op).len() ==> exists|k: int|
            0 <= k < cs.len() && is_image(cs[k], #[trigger] moved_cells(cs, edited, lookup, axis, op)[x], edited, lookup, axis, op),
    decreases cs.len(),
{
    if cs.len() > 0 {
        let pre = cs.drop_last();
        lemma_moved_cells_origin(pre, edited, lookup, axis, op);
        let m = moved_cells(cs, edited, lookup, axis, op);
        let mp = moved_cells(pre, edited, lookup, axis, op);
        assert forall|x: int| 0 <= x < m.len() implies exists|k: int|
            0 <= k < cs.len() && is_image(cs[k], #[trigger] m[x], edited, lookup, axis, op) by {
            if x < mp.len() {
                assert(m[x] == mp[x]);
                let k = choose|k: int| 0 <= k < pre.len() && is_image(pre[k], mp[x], edited, lookup, axis, op);
                assert(pre[k] == cs[k]);
            } else {
                assert(cs[cs.len() - 1] == cs.last());
                assert(is_image(cs[cs.len() - 1], m[x], edited, lookup, axis, op));
            }
        }
    }
}

/// A cell's image keeps the row-then-column order of the positions that survive.
proof fn lemma_moved_before(
    a: CellView,
    b: CellView,
    pa: int,
    pb: int,
    edited: Seq<char>,
    lookup: Map<Seq<char>, Seq<char>>,
    axis: SheetAxis,
    op: RemapOp,
)
    requires
        pos_before(a, b),
        spec_remap_position(axis_pos(a, axis), op) == Some(pa),
        spec_remap_position(axis_pos(b, axis), op) == Some(pb),
        0 <= pa <= u32::MAX,
        0 <= pb <= u32::MAX,
    ensures
        pos_before(
            moved_cell_view(a, pa, edited, lookup, axis, op),
            moved_cell_view(b, pb, edited, lookup, axis, op),
        ),
{
    if axis_pos(a, axis) < axis_pos(b, axis) {
        law_remap_position_monotone(axis_pos(a, axis), axis_pos(b, axis), op);
    }
}

/// The edit keeps a sheet's cells in row-then-column order.
proof fn lemma_moved_cells_sorted(
    cs: Seq<CellView>,
    edited: Seq<char>,
    lookup: Map<Seq<char>, Seq<char>>,
    axis: SheetAxis,
    op: RemapOp,
)
    requires
        sorted_cells(cs),
        forall|k: int| 0 <= k < cs.len() ==> position_fits(axis_pos(#[trigger] cs[k], axis), op),
    ensures
        sorted_cells(moved_cells(cs, edited, lookup, axis, op)),
    decreases cs.len(),
{
    if cs.len() > 0 {
        let pre = cs.drop_last();
        assert forall|k: int| 0 <= k < pre.len() implies position_fits(axis_pos(#[trigger] pre[k], axis), op) by {
            assert(pre[k] == cs[k]);
        }
        assert(sorted_cells(pre)) by {
            assert forall|i: int, j: int| 0 <= i < j < pre.len() implies pos_before(#[trigger] pre[i], #[trigger] pre[j]) by {
                assert(pre[i] == cs[i] && pre[j] == cs[j]);
            }
        }
        lemma_moved_cells_sorted(pre, edited, lookup, axis, op);
        lemma_moved_cells_origin(pre, edited, lookup, axis, op);
        let mp = moved_cells(pre, edited, lookup, axis, op);
        let last = cs.last();
        assert(position_fits(axis_pos(cs[cs.len() - 1], axis), op));
        if let Some(pl) = spec_remap_position(axis_pos(last, axis), op) {
            let m = moved_cells(cs, edited, lookup, axis, op);
            assert(m == mp.push(moved_cell_view(last, pl, edited, lookup, axis, op)));
            assert forall|i: int, j: int| 0 <= i < j < m.len() implies pos_before(#[trigger] m[i], #[trigger] m[j]) by {
                if j < mp.len() {
                    assert(m[i] == mp[i] && m[j] == mp[j]);
                } else {
                    assert(m[i] == mp[i]);
                    let k = choose|k: int| 0 <= k < pre.len() && is_image(pre[k], mp[i], edited, lookup, axis, op);
                    assert(pre[k] == cs[k]);
                    assert(pos_before(cs[k], cs[cs.len() - 1]));
                    assert(position_fits(axis_pos(cs[k], axis), op));
                    let pk = spec_remap_position(axis_pos(pre[k], axis), op).unwrap();
                    lemma_moved_before(cs[k], last, pk, pl, edited, lookup, axis, op);
                }
            }
        }
    }
}

/// Whether every cell's coordinate on the edited axis can be moved.
fn cells_fit(cells: &Vec<CellModel>, axis: SheetAxis, op: RemapOp) -> (res: bool)
    ensures
        res == forall|k: int| 0 <= k < cells@.len() ==> position_fits(axis_pos(#[trigger] cells_view(cells@)[k], axis), op),
{
    let ghost cv = cells_view(cells@);
    let mut k: usize = 0;
    while k < cells.len()
        invariant
            k <= cells@.len(),
            cv == cells_view(cells@),
            forall|j: int| 0 <= j < k ==> position_fits(axis_pos(#[trigger] cv[j], axis), op),
        decreases cells@.len() - k,
    {
        let p = match axis {
            SheetAxis::Row => cells[k].row,
            SheetAxis::Column => cells[k].column,
        };
        proof {
            assert(cv[k as int] == cell_view(cells@[k as int]));
        }
        let fits = match op {
            RemapOp::Insert(at, count) => p < at || p as u64 + count as u64 <= u32::MAX as u64,
            RemapOp::Delete(at, count) => at as u64 + count as u64 <= u32::MAX as u64,
        };
        if !fits {
            return false;
        }
        k += 1;
    }
    true
}

/// The cells that survive the edit, moved and with their formulas rewritten.
fn move_cells(cells: &Vec<CellModel>, edited: &str, lookup: &SheetLookup, axis: SheetAxis, op: RemapOp) -> (res: Vec<CellModel>)
    requires
        lookup.keys_unique(),
        forall|k: int| 0 <= k < cells@.len() ==> position_fits(axis_pos(#[trigger] cells_view(cells@)[k], axis), op),
    ensures
        cells_view(res@) == moved_cells(cells_view(cells@), edited@, lookup.view(), axis, op),
{
    let ghost cv = cells_view(cells@);
    let mut out: Vec<CellModel> = Vec::new();
    let mut k: usize = 0;
    proof {
        assert(cv.take(0) =~= Seq::<CellView>::empty());
        assert(cells_view(out@) =~= Seq::<CellView>::empty());
    }
    while k < cells.len()
        invariant
            k <= cells@.len(),
            cv == cells_view(cells@),
            lookup.keys_unique(),
            forall|j: int| 0 <= j < cells@.len() ==> position_fits(axis_pos(#[trigger] cv[j], axis), op),
            cells_view(out@) == moved_cells(cv.take(k as int), edited@, lookup.view(), axis, op),
        decreases cells@.len() - k,
    {
        let c = &cells[k];
        let ghost before = out@;
        proof {
            assert(cv[k as int] == cell_view(*c));
            assert(cv.take(k + 1).drop_last() =~= cv.take(k as int));
            assert(cv.take(k + 1).last() == cv[k as int]);
            assert(position_fits(axis_pos(cv[k as int], axis), op));
        }
        let p = match axis {
            SheetAxis::Row => c.row,
            SheetAxis::Column => c.column,
        };
        match remap_position(p, op) {
            None => {},
            Some(np) => {
                let formula = match &c.formula {
                    Some(f) => Some(rewrite_formula(f.as_str(), edited, lookup, edited, axis, op)),
                    None => None,
                };
                let (row, column) = match axis {
                    SheetAxis::Row => (np, c.column),
                    SheetAxis::Column => (c.row, np),
                };
                let moved = CellModel {
                    row,
                    column,
                    value: copy_opt_value(&c.value),
                    formula,
                    attrs: copy_attrs(&c.attrs),
                    style: copy_text(&c.style),
                };
                proof {
                    assert(cell_view(moved) == moved_cell_view(cv[k as int], np as int, edited@, lookup.view(), axis, op));
                }
                out.push(moved);
                proof {
                    assert(cells_view(out@) =~= cells_view(before).push(cell_view(moved)));
                }
            },
        }
        k += 1;
    }
    proof {
        assert(cv.take(cells@.len() as int) =~= cv);
    }
    out
}

/// The merged regions that survive the edit, moved.
fn move_ranges(rs: &Vec<GridRange>, axis: SheetAxis, op: RemapOp) -> (res: Vec<GridRange>)
    ensures
        res@ == moved_ranges(rs@, axis, op),
{
    let mut out: Vec<GridRange> = Vec::new();
    let mut k: usize = 0;
    proof {
        assert(rs@.take(0) =~= Seq::<GridRange>::empty());
    }
    while k < rs.len()
        invariant
            k <= rs@.len(),
            out@ == moved_ranges(rs@.take(k as int), axis, op),
        decreases rs@.len() - k,
    {
        proof {
            assert(rs@.take(k + 1).drop_last() =~= rs@.take(k as int));
            assert(rs@.take(k + 1).last() == rs@[k as int]);
        }
        match remap_grid_range(rs[k], axis, op) {
            None => {},
            Some(r) => out.push(r),
        }
        k += 1;
    }
    proof {
        assert(rs@.take(rs@.len() as int) =~= rs@);
    }
    out
}

/// The frozen band and declared size after the edit.
fn move_metadata(md: SheetMetadata, axis: SheetAxis, op: RemapOp) -> (res: SheetMetadata)
    requires
        freeze_fits(
            (match axis {
                SheetAxis::Row => md.freeze.rows,
                SheetAxis::Column => md.freeze.columns,
            }) as int,
            op,
        ),
        op matches RemapOp::Insert(_, n) ==> ((match axis {
            SheetAxis::Row => md.row_count,
            SheetAxis::Column => md.column_count,
        }) matches Some(d) ==> d + n <= u32::MAX),
    ensures
        res == moved_metadata(md, axis, op),
{
    match axis {
        SheetAxis::Row => {
            let frozen = remap_freeze(md.freeze.rows, op);
            let count = match md.row_count {
                Some(n) => Some(remap_dimension(n, op)),
                None => None,
            };
            let rows = match count {
                Some(n) => if frozen <= n { frozen } else { n },
                None => frozen,
            };
            SheetMetadata { freeze: FreezePane { rows, columns: md.freeze.columns }, row_count: count, column_count: md.column_count }
        },
        SheetAxis::Column => {
            let frozen = remap_freeze(md.freeze.columns, op);
            let count = match md.column_count {
                Some(n) => Some(remap_dimension(n, op)),
                None => None,
            };
            let columns = match count {
                Some(n) => if frozen <= n { frozen } else { n },
                None => frozen,
            };
            SheetMetadata { freeze: FreezePane { rows: md.freeze.rows, columns }, row_count: md.row_count, column_count: count }
        },
    }
}

/// Applies a row or column insert or delete to a sheet: cells and merged
/// regions are shifted or dropped, the frozen band and the declared size
/// follow the edit (the band never exceeding the size), and every formula
/// reference into the sheet `edited_sheet_id` is rewritten, a swallowed one
/// becoming `#REF!`. An edit that would move something past the last
/// coordinate is refused.
pub fn remap_sheet(
    sheet: &SheetModel,
    axis: SheetAxis,
    op: RemapOp,
    edited_sheet_id: &str,
    lookup: &SheetLookup,
) -> (res: Result<SheetModel, SpreadsheetEngineError>)
    requires
        lookup.keys_unique(),
    ensures
        match spec_remap_sheet(sheet_view(*sheet), axis, op, edited_sheet_id@, lookup.view()) {
            Some(v) => res matches Ok(s) && sheet_view(s) == v,
            None => res matches Err(e) && e matches SpreadsheetEngineError::InvalidMutation(m)
                && m@ == STRUCTURAL_EDIT_OVERFLOW@,
        },
{
    let md = sheet.metadata;
    let (frozen, count) = match axis {
        SheetAxis::Row => (md.freeze.rows, md.row_count),
        SheetAxis::Column => (md.freeze.columns, md.column_count),
    };
    let freeze_ok = match op {
        RemapOp::Insert(at, n) => !(at < frozen) || frozen as u64 + n as u64 <= u32::MAX as u64,
        RemapOp::Delete(at, n) => !(at < frozen) || at as u64 + n as u64 <= u32::MAX as u64,
    };
    let count_ok = match op {
        RemapOp::Insert(_, n) => match count {
            Some(d) => d as u64 + n as u64 <= u32::MAX as u64,
            None => true,
        },
        RemapOp::Delete(_, _) => true,
    };
    if !freeze_ok || !count_ok || !cells_fit(&sheet.cells, axis, op) {
        return Err(SpreadsheetEngineError::InvalidMutation(String::from_str(STRUCTURAL_EDIT_OVERFLOW)));
    }
    let cells = move_cells(&sheet.cells, edited_sheet_id, lookup, axis, op);
    let merged_ranges = move_ranges(&sheet.merged_ranges, axis, op);
    let metadata = move_metadata(md, axis, op);
    Ok(SheetModel { id: sheet.id.clone(), name: sheet.name.clone(), cells, metadata, merged_ranges })
}

/// The table after `key` is recorded for sheet `id`: a key that already
/// names another sheet keeps it.
pub open spec fn record_key(m: Map<Seq<char>, Seq<char>>, key: Seq<char>, id: Seq<char>) -> Map<Seq<char>, Seq<char>> {
    if m.contains_key(key) && m[key] != id {
        m
    } else {
        m.insert(key, id)
    }
}

/// The names a reference may use for the sheets of a workbook: each
/// sheet's id and its name, normalised, map to its id; where two sheets
/// claim one name, the earlier keeps it.
pub open spec fn names_lookup(v: Seq<SheetView>) -> Map<Seq<char>, Seq<char>>
    decreases v.len(),
{
    if v.len() == 0 {
        Map::empty()
    } else {
        let s = v.last();
        record_key(record_key(names_lookup(v.drop_last()), normalize(s.0), s.0), normalize(s.1), s.0)
    }
}

/// The table of the names references use for the sheets of `model`.
pub fn rewrite_lookup(model: &SpreadsheetModel) -> (res: SheetLookup)
    ensures
        res.keys_unique(),
        res.view() == names_lookup(model_view(*model)),
{
    let ghost v = model_view(*model);
    let mut lookup = SheetLookup::new();
    let mut k: usize = 0;
    proof {
        assert(v.take(0) =~= Seq::<SheetView>::empty());
    }
    while k < model.sheets.len()
        invariant
            k <= model.sheets@.len(),
            v == model_view(*model),
            lookup.keys_unique(),
            lookup.view() == names_lookup(v.take(k as int)),
        decreases model.sheets@.len() - k,
    {
        let sheet = &model.sheets[k];
        proof {
            assert(v.take(k + 1).drop_last() =~= v.take(k as int));
            assert(v.take(k + 1).last() == sheet_view(*sheet));
        }
        let id_key = normalize_chars(&chars_of(sheet.id.as_str()));
        let _ = lookup.record(id_key, &sheet.id);
        let name_key = normalize_chars(&chars_of(sheet.name.as_str()));
        let _ = lookup.record(name_key, &sheet.id);
        k += 1;
    }
    proof {
        assert(v.take(model.sheets@.len() as int) =~= v);
    }
    lookup
}

/// The slots a structural edit inserts or deletes.
pub open spec fn op_count(op: RemapOp) -> u32 {
    match op {
        RemapOp::Insert(_, n) => n,
        RemapOp::Delete(_, n) => n,
    }
}

/// The sheet after a row or column edit of itself, within workbook `v`:
/// `None` when the edit does not fit.
pub open spec fn edited_sheet(v: Seq<SheetView>, i: int, axis: SheetAxis, op: RemapOp) -> Option<SheetView> {
    spec_remap_sheet(v[i], axis, op, v[i].0, names_lookup(v))
}

/// The edit keeps the sheet's id and its cells in order.
pub proof fn lemma_edited_sheet(s: SheetView, axis: SheetAxis, op: RemapOp, edited: Seq<char>, lookup: Map<Seq<char>, Seq<char>>)
    requires
        sorted_cells(s.2),
    ensures
        spec_remap_sheet(s, axis, op, edited, lookup) matches Some(t) ==> t.0 == s.0 && sorted_cells(t.2),
{
    if remap_fits(s, axis, op) {
        lemma_moved_cells_sorted(s.2, edited, lookup, axis, op);
    }
}

/// A sheet's cells with their formulas rewritten for the edit of the sheet
/// `edited`, the formulas being written on the sheet `current`.
pub open spec fn rewritten_cells(
    cs: Seq<CellView>,
    current: Seq<char>,
    edited: Seq<char>,
    lookup: Map<Seq<char>, Seq<char>>,
    axis: SheetAxis,
    op: RemapOp,
) -> Seq<CellView> {
    cs.map_values(
        |c: CellView|
            (c.0, c.1, match c.2 {
                Some(t) => Some(rewrite(t, 0, current, lookup, edited, axis, op)),
                None => None,
            }, c.3, c.4, c.5),
    )
}

/// The sheet `v[j]` with its formulas rewritten for the edit of sheet `v[i]`.
pub open spec fn foreign_sheet(v: Seq<SheetView>, i: int, j: int, lookup: Map<Seq<char>, Seq<char>>, axis: SheetAxis, op: RemapOp) -> SheetView {
    (v[j].0, v[j].1, rewritten_cells(v[j].2, v[j].0, v[i].0, lookup, axis, op), v[j].3, v[j].4)
}

/// The changes to the sheets before `k`, other than `v[i]`, whose formulas
/// read the edited sheet `v[i]`.
pub open spec fn foreign_changes(
    v: Seq<SheetView>,
    i: int,
    lookup: Map<Seq<char>, Seq<char>>,
    axis: SheetAxis,
    op: RemapOp,
    k: int,
) -> Seq<MutationView>
    decreases k,
{
    if k <= 0 {
        Seq::empty()
    } else {
        let rest = foreign_changes(v, i, lookup, axis, op, k - 1);
        let j = k - 1;
        let after = foreign_sheet(v, i, j, lookup, axis, op);
        if j == i || after == v[j] {
            rest
        } else {
            rest.push(MutationView::SheetChanged { sheet_id: v[j].0, index: j, before: Some(v[j]), after: Some(after) })
        }
    }
}

/// The change to the edited sheet itself, when there is one.
pub open spec fn edit_change(v: Seq<SheetView>, i: int, axis: SheetAxis, op: RemapOp) -> Seq<MutationView> {
    match edited_sheet(v, i, axis, op) {
        Some(after) => if after == v[i] {
            Seq::empty()
        } else {
            seq![MutationView::SheetChanged { sheet_id: v[i].0, index: i, before: Some(v[i]), after: Some(after) }]
        },
        None => Seq::empty(),
    }
}

/// Everything a row or column edit of sheet `v[i]` changes: the sheet
/// itself, then, in workbook order, each other sheet whose formulas read it.
pub open spec fn structural_changes(v: Seq<SheetView>, i: int, axis: SheetAxis, op: RemapOp) -> Seq<MutationView> {
    edit_change(v, i, axis, op) + foreign_changes(v, i, names_lookup(v), axis, op, v.len() as int)
}

/// Rewriting formulas keeps the cells' positions, hence their order.
proof fn lemma_rewritten_sorted(
    cs: Seq<CellView>,
    current: Seq<char>,
    edited: Seq<char>,
    lookup: Map<Seq<char>, Seq<char>>,
    axis: SheetAxis,
    op: RemapOp,
)
    requires
        sorted_cells(cs),
    ensures
        sorted_cells(rewritten_cells(cs, current, edited, lookup, axis, op)),
{
    let t = rewritten_cells(cs, current, edited, lookup, axis, op);
    assert forall|a: int, b: int| 0 <= a < b < t.len() implies pos_before(#[trigger] t[a], #[trigger] t[b]) by {
        assert(pos_before(cs[a], cs[b]));
    }
}

/// `w` has the sheets of `v`, by id, in order, and holds `v`'s own sheets
/// from `k` on, except perhaps sheet `i`.
pub open spec fn keeps_from(v: Seq<SheetView>, w: Seq<SheetView>, i: int, k: int) -> bool {
    &&& w.len() == v.len()
    &&& forall|j: int| 0 <= j < v.len() ==> (#[trigger] w[j]).0 == v[j].0
    &&& forall|j: int| 0 <= j < v.len() ==> sorted_cells(#[trigger] w[j].2)
    &&& forall|j: int| k <= j < v.len() && j != i ==> #[trigger] w[j] == v[j]
}

proof fn lemma_keeps_wf(v: Seq<SheetView>, w: Seq<SheetView>, i: int, k: int)
    requires
        model_wf(v),
        keeps_from(v, w, i, k),
    ensures
        model_wf(w),
{
    assert forall|a: int, b: int| 0 <= a < b < w.len() implies (#[trigger] w[a]).0 != (#[trigger] w[b]).0 by {
        assert(v[a].0 != v[b].0);
    }
}

/// The changes to the other sheets apply in turn after the edit of sheet `i`.
proof fn lemma_foreign_chain(
    v: Seq<SheetView>,
    w0: Seq<SheetView>,
    i: int,
    lookup: Map<Seq<char>, Seq<char>>,
    axis: SheetAxis,
    op: RemapOp,
    k: int,
)
    requires
        model_wf(v),
        keeps_from(v, w0, i, 0),
        0 <= i < v.len(),
        0 <= k <= v.len(),
    ensures
        applies_in_turn(w0, foreign_changes(v, i, lookup, axis, op, k)),
        keeps_from(v, apply_all(w0, foreign_changes(v, i, lookup, axis, op, k)), i, k),
    decreases k,
{
    if k > 0 {
        lemma_foreign_chain(v, w0, i, lookup, axis, op, k - 1);
        let rest = foreign_changes(v, i, lookup, axis, op, k - 1);
        let w = apply_all(w0, rest);
        let j = k - 1;
        let after = foreign_sheet(v, i, j, lookup, axis, op);
        if !(j == i || after == v[j]) {
            let m = MutationView::SheetChanged { sheet_id: v[j].0, index: j, before: Some(v[j]), after: Some(after) };
            let all = rest.push(m);
            assert(all.drop_last() =~= rest);
            assert(all.last() == m);
            assert(sorted_cells(v[j].2));
            lemma_rewritten_sorted(v[j].2, v[j].0, v[i].0, lookup, axis, op);
            lemma_keeps_wf(v, w, i, k - 1);
            assert(w[j] == v[j]);
            lemma_sheet_pos(w, j);
            assert(sheet_pos(w, v[j].0) == j);
            assert(records_present(w, m));
            let w2 = spec_apply(w, m);
            assert(w2 == w.update(j, after));
            assert(apply_all(w0, all) == w2);
            assert forall|q: int| 0 <= q < v.len() implies sorted_cells(#[trigger] w2[q].2) by {
                if q != j {
                    assert(w2[q] == w[q]);
                }
            }
            assert forall|q: int| 0 <= q < v.len() implies (#[trigger] w2[q]).0 == v[q].0 by {
                if q != j {
                    assert(w2[q] == w[q]);
                }
            }
            assert forall|q: int| k <= q < v.len() && q != i implies #[trigger] w2[q] == v[q] by {
                assert(w2[q] == w[q]);
            }
        }
    }
}

/// Everything a row or column edit changes applies in turn.
pub proof fn lemma_structural_chain(v: Seq<SheetView>, i: int, axis: SheetAxis, op: RemapOp)
    requires
        model_wf(v),
        0 <= i < v.len(),
    ensures
        applies_in_turn(v, structural_changes(v, i, axis, op)),
{
    let e = edit_change(v, i, axis, op);
    let f = foreign_changes(v, i, names_lookup(v), axis, op, v.len() as int);
    assert(sorted_cells(v[i].2));
    lemma_edited_sheet(v[i], axis, op, v[i].0, names_lookup(v));
    lemma_sheet_pos(v, i);
    let w0 = apply_all(v, e);
    assert(applies_in_turn(v, e) && keeps_from(v, w0, i, 0)) by {
        if e.len() > 0 {
            let after = edited_sheet(v, i, axis, op)->0;
            let m = MutationView::SheetChanged { sheet_id: v[i].0, index: i, before: Some(v[i]), after: Some(after) };
            assert(e == seq![m]);
            assert(e.drop_last() =~= Seq::<MutationView>::empty());
            assert(e.last() == m);
            assert(apply_all(v, e.drop_last()) == v);
            assert(target_sheet(m) == v[i].0);
            assert(mutation_wf(m));
            assert(records_present(v, m));
            assert(spec_apply(v, m) == v.update(i, after));
            assert(w0 == v.update(i, after));
            assert forall|q: int| 0 <= q < v.len() implies sorted_cells(#[trigger] w0[q].2) by {
                if q != i {
                    assert(w0[q] == v[q]);
                }
            }
            assert forall|q: int| 0 <= q < v.len() implies (#[trigger] w0[q]).0 == v[q].0 by {
                if q != i {
                    assert(w0[q] == v[q]);
                }
            }
            assert forall|q: int| 0 <= q < v.len() && q != i implies #[trigger] w0[q] == v[q] by {}
            assert(applies_in_turn(v, e.drop_last()));
        } else {
            assert(w0 == v);
        }
    }
    lemma_foreign_chain(v, w0, i, names_lookup(v), axis, op, v.len() as int);
    lemma_applies_concat(v, e, f);
}

/// Two lists that apply in turn, one after the other, apply in turn.
proof fn lemma_applies_concat(v: Seq<SheetView>, a: Seq<MutationView>, b: Seq<MutationView>)
    requires
        applies_in_turn(v, a),
        applies_in_turn(apply_all(v, a), b),
    ensures
        applies_in_turn(v, a + b),
        apply_all(v, a + b) == apply_all(apply_all(v, a), b),
    decreases b.len(),
{
    if b.len() == 0 {
        assert(a + b =~= a);
    } else {
        lemma_applies_concat(v, a, b.drop_last());
        assert((a + b).drop_last() =~= a + b.drop_last());
        assert((a + b).last() == b.last());
    }
}

/// A sheet with the formulas that read the sheet `edited` rewritten.
pub fn rewrite_sheet(sheet: &SheetModel, edited: &str, lookup: &SheetLookup, axis: SheetAxis, op: RemapOp) -> (res: SheetModel)
    requires
        lookup.keys_unique(),
    ensures
        sheet_view(res) == (
            sheet.id@,
            sheet.name@,
            rewritten_cells(cells_view(sheet.cells@), sheet.id@, edited@, lookup.view(), axis, op),
            sheet.metadata,
            sheet.merged_ranges@,
        ),
{
    let ghost cv = cells_view(sheet.cells@);
    let ghost target = rewritten_cells(cv, sheet.id@, edited@, lookup.view(), axis, op);
    let mut out: Vec<CellModel> = Vec::new();
    let mut k: usize = 0;
    while k < sheet.cells.len()
        invariant
            k <= sheet.cells@.len(),
            cv == cells_view(sheet.cells@),
            target == rewritten_cells(cv, sheet.id@, edited@, lookup.view(), axis, op),
            lookup.keys_unique(),
            cells_view(out@) == target.take(k as int),
        decreases sheet.cells@.len() - k,
    {
        let c = &sheet.cells[k];
        let formula = match &c.formula {
            Some(f) => Some(rewrite_formula(f.as_str(), sheet.id.as_str(), lookup, edited, axis, op)),
            None => None,
        };
        let cell = CellModel {
            row: c.row,
            column: c.column,
            value: copy_opt_value(&c.value),
            formula,
            attrs: copy_attrs(&c.attrs),
            style: copy_text(&c.style),
        };
        let ghost before = out@;
        out.push(cell);
        proof {
            assert(cv[k as int] == cell_view(*c));
            assert(cells_view(out@) =~= cells_view(before).push(cell_view(cell)));
            assert(target.take(k + 1) =~= target.take(k as int).push(target[k as int]));
        }
        k += 1;
    }
    proof {
        assert(target.take(sheet.cells@.len() as int) =~= target);
    }
    SheetModel {
        id: sheet.id.clone(),
        name: sheet.name.clone(),
        cells: out,
        metadata: sheet.metadata,
        merged_ranges: crate::dependency::copy_ranges(&sheet.merged_ranges),
    }
}

/// Deleting the rows or columns an insert created gives back the cells
/// that carry no formula, at their positions.
proof fn lemma_delete_undoes_insert_cells(
    cs: Seq<CellView>,
    edited: Seq<char>,
    lookup: Map<Seq<char>, Seq<char>>,
    axis: SheetAxis,
    at: u32,
    count: u32,
)
    requires
        forall|k: int| 0 <= k < cs.len() ==> position_fits(axis_pos(#[trigger] cs[k], axis), RemapOp::Insert(at, count)),
        at + count <= u32::MAX,
        forall|k: int| 0 <= k < cs.len() ==> (#[trigger] cs[k]).2 is None,
    ensures
        moved_cells(
            moved_cells(cs, edited, lookup, axis, RemapOp::Insert(at, count)),
            edited,
            lookup,
            axis,
            RemapOp::Delete(at, count),
        ) == cs,
    decreases cs.len(),
{
    let ins = RemapOp::Insert(at, count);
    let del = RemapOp::Delete(at, count);
    if cs.len() == 0 {
        assert(moved_cells(cs, edited, lookup, axis, ins) =~= Seq::<CellView>::empty());
    } else {
        let pre = cs.drop_last();
        assert forall|k: int| 0 <= k < pre.len() implies position_fits(axis_pos(#[trigger] pre[k], axis), ins) && pre[k].2 is None by {
            assert(pre[k] == cs[k]);
        }
        lemma_delete_undoes_insert_cells(pre, edited, lookup, axis, at, count);
        let c = cs.last();
        assert(c == cs[cs.len() - 1]);
        let p = axis_pos(c, axis);
        law_delete_undoes_insert_position(p as u32, at, count);
        let np = spec_remap_position(p, ins).unwrap();
        let x = moved_cell_view(c, np, edited, lookup, axis, ins);
        let m1 = moved_cells(cs, edited, lookup, axis, ins);
        assert(m1 == moved_cells(pre, edited, lookup, axis, ins).push(x));
        assert(m1.drop_last() =~= moved_cells(pre, edited, lookup, axis, ins));
        assert(m1.last() == x);
        assert(axis_pos(x, axis) == np);
        assert(moved_cell_view(x, p, edited, lookup, axis, del) == c);
        assert(pre.push(c) =~= cs);
    }
}

/// Deleting the rows or columns an insert created gives back the merged
/// regions.
proof fn lemma_delete_undoes_insert_ranges(rs: Seq<GridRange>, axis: SheetAxis, at: u32, count: u32)
    requires
        forall|k: int|
            0 <= k < rs.len() ==> (match axis {
                SheetAxis::Row => (#[trigger] rs[k]).start_row <= rs[k].end_row && rs[k].end_row + count <= u32::MAX,
                SheetAxis::Column => rs[k].start_column <= rs[k].end_column && rs[k].end_column + count <= u32::MAX,
            }),
    ensures
        moved_ranges(moved_ranges(rs, axis, RemapOp::Insert(at, count)), axis, RemapOp::Delete(at, count)) == rs,
    decreases rs.len(),
{
    let ins = RemapOp::Insert(at, count);
    let del = RemapOp::Delete(at, count);
    if rs.len() == 0 {
        assert(moved_ranges(rs, axis, ins) =~= Seq::<GridRange>::empty());
    } else {
        let pre = rs.drop_last();
        assert forall|k: int|
            0 <= k < pre.len() implies (match axis {
                SheetAxis::Row => (#[trigger] pre[k]).start_row <= pre[k].end_row && pre[k].end_row + count <= u32::MAX,
                SheetAxis::Column => pre[k].start_column <= pre[k].end_column && pre[k].end_column + count <= u32::MAX,
            }) by {
            assert(pre[k] == rs[k]);
        }
        lemma_delete_undoes_insert_ranges(pre, axis, at, count);
        let r = rs.last();
        assert(r == rs[rs.len() - 1]);
        match axis {
            SheetAxis::Row => law_delete_undoes_insert_range(r.start_row, r.end_row, at, count),
            SheetAxis::Column => law_delete_undoes_insert_range(r.start_column, r.end_column, at, count),
        }
        let x = spec_remap_grid_range(r, axis, ins).unwrap();
        let m1 = moved_ranges(rs, axis, ins);
        assert(m1 == moved_ranges(pre, axis, ins).push(x));
        assert(m1.drop_last() =~= moved_ranges(pre, axis, ins));
        assert(m1.last() == x);
        assert(spec_remap_grid_range(x, axis, del) == Some(r));
        assert(pre.push(r) =~= rs);
    }
}

/// Deleting the rows or columns that an insert created gives back the
/// sheet: its cells (none holding a formula, since a formula's text may be
/// written anew), merged regions, frozen band and declared size. The sheet
/// is one a command can produce: its merged regions run forwards and its
/// frozen band fits its declared size.
pub proof fn law_delete_undoes_insert_sheet(
    s: SheetView,
    axis: SheetAxis,
    at: u32,
    count: u32,
    edited: Seq<char>,
    lookup: Map<Seq<char>, Seq<char>>,
)
    requires
        spec_remap_sheet(s, axis, RemapOp::Insert(at, count), edited, lookup) is Some,
        at + count <= u32::MAX,
        forall|k: int| 0 <= k < s.2.len() ==> (#[trigger] s.2[k]).2 is None,
        forall|k: int|
            0 <= k < s.4.len() ==> (match axis {
                SheetAxis::Row => (#[trigger] s.4[k]).start_row <= s.4[k].end_row && s.4[k].end_row + count <= u32::MAX,
                SheetAxis::Column => s.4[k].start_column <= s.4[k].end_column && s.4[k].end_column + count <= u32::MAX,
            }),
        match axis {
            SheetAxis::Row => s.3.freeze.rows + count <= u32::MAX && (s.3.row_count matches Some(n) ==> s.3.freeze.rows <= n),
            SheetAxis::Column => s.3.freeze.columns + count <= u32::MAX && (s.3.column_count matches Some(n) ==> s.3.freeze.columns
                <= n),
        },
    ensures
        spec_remap_sheet(
            spec_remap_sheet(s, axis, RemapOp::Insert(at, count), edited, lookup).unwrap(),
            axis,
            RemapOp::Delete(at, count),
            edited,
            lookup,
        ) == Some(s),
{
    let ins = RemapOp::Insert(at, count);
    let del = RemapOp::Delete(at, count);
    let t = spec_remap_sheet(s, axis, ins, edited, lookup).unwrap();
    lemma_delete_undoes_insert_cells(s.2, edited, lookup, axis, at, count);
    lemma_delete_undoes_insert_ranges(s.4, axis, at, count);
    match axis {
        SheetAxis::Row => law_delete_undoes_insert_freeze(s.3.freeze.rows, at, count),
        SheetAxis::Column => law_delete_undoes_insert_freeze(s.3.freeze.columns, at, count),
    }
    assert(forall|k: int| 0 <= k < t.2.len() ==> position_fits(axis_pos(#[trigger] t.2[k], axis), del));
    assert(remap_fits(t, axis, del));
    assert(moved_metadata(t.3, axis, del) == s.3);
}

} // verus!
