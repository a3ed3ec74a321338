//! The checks the spreadsheet engine makes before it edits a sheet: which
//! sheet an id names, which cell an address names, and whether a range, a
//! paste target and clipboard cells are well formed.

use vstd::prelude::*;
use std::collections::HashSet;
use crate::address::{CellAddress, Addr, av};
use crate::grid::GridRange;
use crate::dependency::{SpreadsheetModel, SheetModel, CellModel, first_sheet_with, first_cell_at};
use crate::calculation::{holds_at, holds_cell};
use crate::text::{chars_of, string_of, push_chars, same_text};
use crate::viewport::{CellView, cells_view, cell_view};
use crate::cells::{CellValue, copy_opt_value, copy_text, copy_attrs};

verus! {

/// Why the spreadsheet engine refused a command.
#[derive(Debug, Clone, PartialEq, Eq)]
pub enum SpreadsheetEngineError {
    EmptyCommandBatch,
    RevisionConflict { expected: u64, actual: u64 },
    MissingSheet(String),
    DuplicateSheet(String),
    EmptySheetIdentity,
    MissingCell(CellAddress),
    RevisionOverflow,
    NoChanges,
    NothingToUndo,
    NothingToRedo,
    InvalidMutation(String),
    MergeOverlap,
    MergeUnknown,
    InvalidSortKeys,
    SortWithFormulas(CellAddress),
    DataValidationRejected { cell: CellAddress, rule_id: String, message: String },
    Schema(String),
}

/// Most cells one paste may cover.
pub const MAX_PASTE_CELLS: u64 = 100000;

/// Rows of the largest worksheet.
pub const MAX_SHEET_ROWS: u32 = 1048576;

/// Columns of the largest worksheet.
pub const MAX_SHEET_COLUMNS: u32 = 16384;

/// Follows the label of a range whose start lies after its end.
pub const RANGE_REVERSED: &'static str = "起点不得超过终点";

pub const PASTE_EMPTY: &'static str = "粘贴区域行列数必须大于零";

pub const PASTE_TOO_LARGE: &'static str = "粘贴区域超过 100000 个单元格";

pub const PASTE_ROW_OVERFLOW: &'static str = "粘贴行坐标溢出";

pub const PASTE_COLUMN_OVERFLOW: &'static str = "粘贴列坐标溢出";

pub const PASTE_OUTSIDE_SHEET: &'static str = "粘贴区域超出工作表边界";

pub const CLIPBOARD_INVALID: &'static str = "剪贴板单元格坐标越界或重复";

/// `e` is an invalid mutation with message `m`.
pub open spec fn invalid_mutation(e: SpreadsheetEngineError, m: Seq<char>) -> bool {
    e matches SpreadsheetEngineError::InvalidMutation(s) && s@ == m
}

/// No sheet has the id `id`.
pub open spec fn no_sheet(model: SpreadsheetModel, id: Seq<char>) -> bool {
    forall|i: int| !first_sheet_with(model, id, i)
}

/// The position of the first sheet with id `id`.
pub fn sheet_index(model: &SpreadsheetModel, id: &str) -> (res: Result<usize, SpreadsheetEngineError>)
    ensures
        match res {
            Ok(i) => first_sheet_with(*model, id@, i as int),
            Err(e) => no_sheet(*model, id@) && (e matches SpreadsheetEngineError::MissingSheet(s) && s@ == id@),
        },
{
    let mut i: usize = 0;
    while i < model.sheets.len() && !same_text(model.sheets[i].id.as_str(), id)
        invariant
            i <= model.sheets@.len(),
            forall|k: int| 0 <= k < i ==> (#[trigger] model.sheets@[k]).id@ != id@,
        decreases model.sheets@.len() - i,
    {
        i += 1;
    }
    if i == model.sheets.len() {
        return Err(SpreadsheetEngineError::MissingSheet(String::from_str(id)));
    }
    Ok(i)
}

/// The first sheet with id `id`.
pub fn sheet_at<'a>(model: &'a SpreadsheetModel, id: &str) -> (res: Result<&'a SheetModel, SpreadsheetEngineError>)
    ensures
        match res {
            Ok(sheet) => exists|i: int| first_sheet_with(*model, id@, i) && *sheet == model.sheets@[i],
            Err(e) => no_sheet(*model, id@) && (e matches SpreadsheetEngineError::MissingSheet(s) && s@ == id@),
        },
{
    match sheet_index(model, id) {
        Ok(i) => Ok(&model.sheets[i]),
        Err(e) => Err(e),
    }
}

/// The cell the snapshot holds at `address`: the first cell at its row and
/// column in the first sheet with its id.
pub fn find_cell<'a>(model: &'a SpreadsheetModel, address: &CellAddress) -> (res: Option<&'a CellModel>)
    ensures
        match res {
            Some(c) => exists|i: int, j: int| holds_at(*model, av(*address), i, j) && *c == model.sheets@[i].cells@[j],
            None => !holds_cell(*model, av(*address)),
        },
{
    let ghost a = av(*address);
    let i = match sheet_index(model, address.sheet_id.as_str()) {
        Ok(i) => i,
        Err(_) => {
            proof {
                assert forall|i2: int, j2: int| !holds_at(*model, a, i2, j2) by {
                    assert(!first_sheet_with(*model, a.0, i2));
                }
            }
            return None;
        },
    };
    let sheet: &'a SheetModel = &model.sheets[i];
    proof {
        assert forall|i2: int, j2: int| holds_at(*model, a, i2, j2) implies i2 == i by {
            if i2 < i {
                assert(model.sheets@[i2].id@ != a.0);
            }
            if i2 > i {
                assert(model.sheets@[i as int].id@ == a.0);
            }
        }
    }
    let mut j: usize = 0;
    while j < sheet.cells.len()
        invariant
            i < model.sheets@.len(),
            *sheet == model.sheets@[i as int],
            a == av(*address),
            first_sheet_with(*model, a.0, i as int),
            j <= sheet.cells@.len(),
            forall|k: int| 0 <= k < j ==> !((#[trigger] sheet.cells@[k]).row == a.1 && sheet.cells@[k].column == a.2),
        decreases sheet.cells@.len() - j,
    {
        if sheet.cells[j].row == address.row && sheet.cells[j].column == address.column {
            proof {
                assert(holds_at(*model, a, i as int, j as int));
            }
            return Some(&sheet.cells[j]);
        }
        j += 1;
    }
    proof {
        assert forall|i2: int, j2: int| !holds_at(*model, a, i2, j2) by {
            if holds_at(*model, a, i2, j2) {
                assert(i2 == i);
                assert(sheet.cells@[j2].row == a.1);
            }
        }
    }
    None
}

/// Refuses a range whose start lies after its end on either axis, naming it
/// by `label`.
pub fn validate_grid_range(range: GridRange, label: &str) -> (res: Result<(), SpreadsheetEngineError>)
    ensures
        range.wf() ==> res is Ok,
        !range.wf() ==> (res matches Err(e) && invalid_mutation(e, label@ + RANGE_REVERSED@)),
{
    if range.start_row > range.end_row || range.start_column > range.end_column {
        let mut message = chars_of(label);
        push_chars(&mut message, &chars_of(RANGE_REVERSED));
        return Err(SpreadsheetEngineError::InvalidMutation(string_of(&message)));
    }
    Ok(())
}

/// The last row a paste may reach on `sheet`: its declared row count, at
/// most the largest worksheet's.
pub open spec fn row_limit(sheet: SheetModel) -> u32 {
    match sheet.metadata.row_count {
        Some(n) => if n <= MAX_SHEET_ROWS { n } else { MAX_SHEET_ROWS },
        None => MAX_SHEET_ROWS,
    }
}

pub open spec fn column_limit(sheet: SheetModel) -> u32 {
    match sheet.metadata.column_count {
        Some(n) => if n <= MAX_SHEET_COLUMNS { n } else { MAX_SHEET_COLUMNS },
        None => MAX_SHEET_COLUMNS,
    }
}

/// The range a paste of `row_count` by `column_count` cells at
/// (`start_row`, `start_column`) covers on sheet `sheet_id`.
pub fn checked_paste_range(
    model: &SpreadsheetModel,
    sheet_id: &str,
    start_row: u32,
    start_column: u32,
    row_count: u32,
    column_count: u32,
) -> (res: Result<GridRange, SpreadsheetEngineError>)
    ensures
        ({
            let end_row = start_row + row_count - 1;
            let end_column = start_column + column_count - 1;
            if row_count == 0 || column_count == 0 {
                res matches Err(e) && invalid_mutation(e, PASTE_EMPTY@)
            } else if row_count * column_count > MAX_PASTE_CELLS {
                res matches Err(e) && invalid_mutation(e, PASTE_TOO_LARGE@)
            } else if end_row > u32::MAX {
                res matches Err(e) && invalid_mutation(e, PASTE_ROW_OVERFLOW@)
            } else if end_column > u32::MAX {
                res matches Err(e) && invalid_mutation(e, PASTE_COLUMN_OVERFLOW@)
            } else if no_sheet(*model, sheet_id@) {
                res matches Err(e) && (e matches SpreadsheetEngineError::MissingSheet(s) && s@ == sheet_id@)
            } else {
                exists|i: int|
                    first_sheet_with(*model, sheet_id@, i) && if end_row >= row_limit(model.sheets@[i])
                        || end_column >= column_limit(model.sheets@[i]) {
                        res matches Err(e) && invalid_mutation(e, PASTE_OUTSIDE_SHEET@)
                    } else {
                        res == Ok::<GridRange, SpreadsheetEngineError>(
                            GridRange {
                                start_row,
                                start_column,
                                end_row: end_row as u32,
                                end_column: end_column as u32,
                            },
                        )
                    }
            }
        }),
{
    if row_count == 0 || column_count == 0 {
        return Err(SpreadsheetEngineError::InvalidMutation(String::from_str(PASTE_EMPTY)));
    }
    assert((row_count as u64) * (column_count as u64) <= u64::MAX) by (nonlinear_arith)
        requires
            row_count <= u32::MAX,
            column_count <= u32::MAX,
    ;
    let count = (row_count as u64) * (column_count as u64);
    if count > MAX_PASTE_CELLS {
        return Err(SpreadsheetEngineError::InvalidMutation(String::from_str(PASTE_TOO_LARGE)));
    }
    let end_row = match start_row.checked_add(row_count - 1) {
        Some(v) => v,
        None => {
            return Err(SpreadsheetEngineError::InvalidMutation(String::from_str(PASTE_ROW_OVERFLOW)));
        },
    };
    let end_column = match start_column.checked_add(column_count - 1) {
        Some(v) => v,
        None => {
            return Err(SpreadsheetEngineError::InvalidMutation(String::from_str(PASTE_COLUMN_OVERFLOW)));
        },
    };
    let i = match sheet_index(model, sheet_id) {
        Ok(i) => i,
        Err(e) => {
            return Err(e);
        },
    };
    let sheet = &model.sheets[i];
    let rows = match sheet.metadata.row_count {
        Some(n) => if n <= MAX_SHEET_ROWS { n } else { MAX_SHEET_ROWS },
        None => MAX_SHEET_ROWS,
    };
    let columns = match sheet.metadata.column_count {
        Some(n) => if n <= MAX_SHEET_COLUMNS { n } else { MAX_SHEET_COLUMNS },
        None => MAX_SHEET_COLUMNS,
    };
    proof {
        assert(!no_sheet(*model, sheet_id@));
    }
    if end_row >= rows || end_column >= columns {
        return Err(SpreadsheetEngineError::InvalidMutation(String::from_str(PASTE_OUTSIDE_SHEET)));
    }
    Ok(GridRange { start_row, start_column, end_row, end_column })
}

/// A cell on the clipboard, placed by its offset from the paste target.
#[derive(Debug, Clone, PartialEq, Eq)]
pub struct SpreadsheetClipboardCell {
    pub row_offset: u32,
    pub column_offset: u32,
    pub value: Option<CellValue>,
    pub formula: Option<String>,
    pub attrs: Vec<(String, String)>,
    pub style: Option<String>,
}

/// Every clipboard cell lies inside `row_count` by `column_count` and no
/// two share an offset.
pub open spec fn clipboard_fits(cells: Seq<SpreadsheetClipboardCell>, row_count: u32, column_count: u32) -> bool {
    &&& forall|k: int| 0 <= k < cells.len() ==> (#[trigger] cells[k]).row_offset < row_count && cells[k].column_offset
        < column_count
    &&& forall|k1: int, k2: int|
        0 <= k1 < k2 < cells.len() ==> !((#[trigger] cells[k1]).row_offset == (#[trigger] cells[k2]).row_offset
            && cells[k1].column_offset == cells[k2].column_offset)
}

/// One number per offset pair.
pub open spec fn offset_key(row: u32, column: u32) -> u64 {
    (row * 4294967296 + column) as u64
}

pub(crate) proof fn lemma_offset_key(r1: u32, c1: u32, r2: u32, c2: u32)
    ensures
        offset_key(r1, c1) == offset_key(r2, c2) <==> (r1 == r2 && c1 == c2),
{
    assert(0 <= r1 * 4294967296 + c1 <= u64::MAX) by (nonlinear_arith);
    assert(0 <= r2 * 4294967296 + c2 <= u64::MAX) by (nonlinear_arith);
    if r1 * 4294967296 + c1 == r2 * 4294967296 + c2 {
        assert(r1 == r2 && c1 == c2) by (nonlinear_arith)
            requires
                r1 * 4294967296 + c1 == r2 * 4294967296 + c2,
                0 <= c1 < 4294967296,
                0 <= c2 < 4294967296,
                0 <= r1,
                0 <= r2,
        ;
    }
}

/// Refuses clipboard cells outside the pasted block or sharing an offset.
pub fn validate_clipboard_cells(cells: &[SpreadsheetClipboardCell], row_count: u32, column_count: u32) -> (res: Result<
    (),
    SpreadsheetEngineError,
>)
    ensures
        clipboard_fits(cells@, row_count, column_count) ==> res is Ok,
        !clipboard_fits(cells@, row_count, column_count) ==> (res matches Err(e) && invalid_mutation(e, CLIPBOARD_INVALID@)),
{
    broadcast use vstd::std_specs::hash::group_hash_axioms;

    let mut seen: HashSet<u64> = HashSet::new();
    let mut k: usize = 0;
    while k < cells.len()
        invariant
            k <= cells@.len(),
            clipboard_fits(cells@.subrange(0, k as int), row_count, column_count),
            forall|x: u64| #[trigger] seen@.contains(x) <==> exists|m: int| 0 <= m < k && x == offset_key(cells@[m].row_offset, cells@[m].column_offset),
        decreases cells@.len() - k,
    {
        let cell = &cells[k];
        let key = (cell.row_offset as u64) * 4294967296 + cell.column_offset as u64;
        proof {
            assert(key == offset_key(cell.row_offset, cell.column_offset));
        }
        if cell.row_offset >= row_count || cell.column_offset >= column_count || !seen.insert(key) {
            proof {
                if cell.row_offset < row_count && cell.column_offset < column_count {
                    let m = choose|m: int| 0 <= m < k && key == offset_key(cells@[m].row_offset, cells@[m].column_offset);
                    lemma_offset_key(cell.row_offset, cell.column_offset, cells@[m].row_offset, cells@[m].column_offset);
                    assert(!clipboard_fits(cells@, row_count, column_count));
                } else {
                    assert(!clipboard_fits(cells@, row_count, column_count));
                }
            }
            return Err(SpreadsheetEngineError::InvalidMutation(String::from_str(CLIPBOARD_INVALID)));
        }
        proof {
            let pre = cells@.subrange(0, k as int);
            let post = cells@.subrange(0, k + 1);
            assert forall|k1: int, k2: int| 0 <= k1 < k2 < post.len() implies !((#[trigger] post[k1]).row_offset
                == (#[trigger] post[k2]).row_offset && post[k1].column_offset == post[k2].column_offset) by {
                if k2 == k {
                    assert(post[k1] == cells@[k1]);
                    lemma_offset_key(cells@[k1].row_offset, cells@[k1].column_offset, cell.row_offset, cell.column_offset);
                    assert(!(exists|m: int| 0 <= m < k && key == offset_key(cells@[m].row_offset, cells@[m].column_offset)));
                    assert(!(key == offset_key(cells@[k1].row_offset, cells@[k1].column_offset)));
                } else {
                    assert(post[k1] == pre[k1] && post[k2] == pre[k2]);
                }
            }
            assert forall|j: int| 0 <= j < post.len() implies (#[trigger] post[j]).row_offset < row_count && post[j].column_offset
                < column_count by {
                if j < k {
                    assert(post[j] == pre[j]);
                }
            }
            assert forall|x: u64| #[trigger] seen@.contains(x) <==> exists|m: int| 0 <= m < k + 1 && x == offset_key(cells@[m].row_offset, cells@[m].column_offset) by {
                if exists|m: int| 0 <= m < k + 1 && x == offset_key(cells@[m].row_offset, cells@[m].column_offset) {
                    let m = choose|m: int| 0 <= m < k + 1 && x == offset_key(cells@[m].row_offset, cells@[m].column_offset);
                    if m < k {
                        assert(exists|m2: int| 0 <= m2 < k && x == offset_key(cells@[m2].row_offset, cells@[m2].column_offset));
                    }
                }
                if exists|m: int| 0 <= m < k && x == offset_key(cells@[m].row_offset, cells@[m].column_offset) {
                    let m = choose|m: int| 0 <= m < k && x == offset_key(cells@[m].row_offset, cells@[m].column_offset);
                    assert(0 <= m < k + 1);
                }
            }
        }
        k += 1;
    }
    proof {
        assert(cells@.subrange(0, k as int) =~= cells@);
    }
    Ok(())
}

/// The cells inside the inclusive range `r`.
pub open spec fn in_range(r: GridRange) -> spec_fn(CellView) -> bool {
    |x: CellView| r.spec_contains(x.0 as int, x.1 as int)
}

/// A copy of the cell.
pub fn copy_cell(c: &CellModel) -> (res: CellModel)
    ensures
        cell_view(res) == cell_view(*c),
{
    let formula = match &c.formula {
        Some(f) => Some(f.clone()),
        None => None,
    };
    CellModel {
        row: c.row,
        column: c.column,
        value: copy_opt_value(&c.value),
        formula,
        attrs: copy_attrs(&c.attrs),
        style: copy_text(&c.style),
    }
}

/// Copies of the sheet's materialised cells inside `range`, in sheet order.
pub fn range_cells(sheet: &SheetModel, range: GridRange) -> (res: Vec<CellModel>)
    ensures
        cells_view(res@) == cells_view(sheet.cells@).filter(in_range(range)),
{
    let ghost all = cells_view(sheet.cells@);
    let mut out: Vec<CellModel> = Vec::new();
    let mut j: usize = 0;
    proof {
        reveal(Seq::filter);
        assert(cells_view(out@) =~= all.subrange(0, 0).filter(in_range(range)));
    }
    while j < sheet.cells.len()
        invariant
            all == cells_view(sheet.cells@),
            j <= sheet.cells@.len(),
            cells_view(out@) == all.subrange(0, j as int).filter(in_range(range)),
        decreases sheet.cells@.len() - j,
    {
        let ghost before = out@;
        proof {
            assert(all.subrange(0, j + 1) =~= all.subrange(0, j as int).push(all[j as int]));
            all.subrange(0, j as int).lemma_filter_push(all[j as int], in_range(range));
        }
        let c = &sheet.cells[j];
        if crate::grid::inside_range(c.row, c.column, range) {
            out.push(copy_cell(c));
            proof {
                assert(cells_view(out@) =~= cells_view(before).push(all[j as int]));
            }
        }
        j += 1;
    }
    proof {
        assert(all.subrange(0, j as int) =~= all);
    }
    out
}

} // verus!
