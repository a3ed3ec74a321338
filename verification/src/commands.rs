//! The engine's commands (sheets, cells, panes, dimensions, ranges, merges,
//! row and column edits, paste and fill): each turns the present workbook
//! into the reversible mutations that carry it out, or into nothing when it
//! would change nothing, or is refused.

use vstd::prelude::*;
use crate::cells::{CellValue, CellValueView, opt_value_view, text_view, attrs_view, copy_opt_value, copy_text, copy_attrs};
use crate::dependency::{SpreadsheetModel, SheetModel, CellModel, SheetMetadata, FreezePane};
use crate::address::CellAddress;
use crate::mutation::{
    SpreadsheetMutation, MutationView, SheetView, sheet_view, model_view, model_wf, sorted_cells, sheet_pos, cell_at,
    mutation_wf, records_present, find_sheet, copy_sheet, copy_cells, lemma_sheet_pos, lemma_sheet_pos_none,
};
use crate::sheet_edits::{SpreadsheetEngineError, copy_cell};
use crate::sheet_name::{trim, trim_chars};
use crate::text::chars_of;
use crate::viewport::{CellView, cell_view, cells_view};
use crate::mutation::{opt_cell_view, pos_before};
use crate::engine::{same_cell, find_cell_in};
use crate::editing::ClearRangeMode;
use crate::grid::GridRange;
use crate::sheet_edits::{in_range, range_cells};
use crate::mutation::lemma_filter_sorted;
use crate::remap::{SheetAxis, RemapOp};
use crate::editing::{SpreadsheetPasteMode, SpreadsheetClipboardOrigin};
use crate::sheet_edits::{
    SpreadsheetClipboardCell, MAX_PASTE_CELLS, MAX_SHEET_ROWS, MAX_SHEET_COLUMNS, PASTE_EMPTY, PASTE_TOO_LARGE,
    PASTE_ROW_OVERFLOW, PASTE_COLUMN_OVERFLOW, PASTE_OUTSIDE_SHEET, CLIPBOARD_INVALID, checked_paste_range,
    validate_clipboard_cells, no_sheet, validate_grid_range, RANGE_REVERSED,
};
use crate::fill::{fill_clips, fill_cells, lemma_fill_targets};
use crate::paste::pos_map;
use crate::paste::{ClipView, clip_view, clip_views, target_of, paste_result, lemma_paste_result, build_paste_after};
use crate::structural::{
    STRUCTURAL_EDIT_OVERFLOW, op_count, edited_sheet, names_lookup, rewrite_lookup, remap_sheet, structural_changes,
    edit_change, foreign_changes, foreign_sheet, rewrite_sheet, lemma_structural_chain,
};
use crate::mutation::applies_in_turn;
use crate::engine::batch_views;

verus! {

/// Refuses a frozen band taller than the sheet.
pub const FREEZE_ROWS_EXCEED: &'static str = "冻结行数超出工作表行数";

/// Refuses a frozen band wider than the sheet.
pub const FREEZE_COLUMNS_EXCEED: &'static str = "冻结列数超出工作表列数";

/// Refuses a row count below the frozen rows.
pub const ROWS_BELOW_FREEZE: &'static str = "行数小于冻结行数";

/// Refuses a range to clear whose start lies after its end.
pub const CLEAR_RANGE_REVERSED: &'static str = "清除区域起点不得超过终点";

/// Refuses a paste whose copied block would reach past the last coordinate.
pub const SOURCE_ORIGIN_OVERFLOW: &'static str = "剪贴板源坐标溢出";

/// Names the source range of a fill in the refusal of a reversed range.
pub const FILL_SOURCE: &'static str = "填充源区域";

/// Names the destination range of a fill in the refusal of a reversed range.
pub const FILL_TARGET: &'static str = "填充目标区域";

/// Refuses a fill whose destination holds more cells than a paste may.
pub const FILL_TOO_LARGE: &'static str = "填充目标超过 100000 个单元格";

/// The refusal of a merge whose start lies past its end.
pub const MERGE_RANGE_REVERSED: &'static str = "合并区域起点不得超过终点";

/// Refuses a column count below the frozen columns.
pub const COLUMNS_BELOW_FREEZE: &'static str = "列数小于冻结列数";

/// One engine command.
#[derive(Debug, Clone, PartialEq, Eq)]
pub enum SpreadsheetCommand {
    CreateSheet { id: String, name: String },
    RenameSheet { sheet_id: String, name: String },
    DeleteSheet { sheet_id: String },
    SetCell {
        sheet_id: String,
        row: u32,
        column: u32,
        value: Option<CellValue>,
        formula: Option<String>,
        attrs: Vec<(String, String)>,
    },
    SetCellStyle { sheet_id: String, row: u32, column: u32, style: Option<String> },
    ClearCell { sheet_id: String, row: u32, column: u32 },
    SetFreezePane { sheet_id: String, rows: u32, columns: u32 },
    SetRowDimensions { sheet_id: String, rows: Option<u32> },
    SetColumnDimensions { sheet_id: String, columns: Option<u32> },
    ClearRange { sheet_id: String, range: GridRange, mode: ClearRangeMode },
    MergeCells { sheet_id: String, range: GridRange },
    UnmergeCells { sheet_id: String, range: GridRange },
    SetSheetMetadata { sheet_id: String, metadata: SheetMetadata, merged_ranges: Vec<GridRange> },
    InsertRows { sheet_id: String, at: u32, count: u32 },
    DeleteRows { sheet_id: String, at: u32, count: u32 },
    InsertColumns { sheet_id: String, at: u32, count: u32 },
    DeleteColumns { sheet_id: String, at: u32, count: u32 },
    PasteRange {
        sheet_id: String,
        start_row: u32,
        start_column: u32,
        row_count: u32,
        column_count: u32,
        cells: Vec<SpreadsheetClipboardCell>,
        mode: SpreadsheetPasteMode,
        source_origin: Option<SpreadsheetClipboardOrigin>,
    },
    FillRange {
        source_sheet_id: String,
        source_range: GridRange,
        destination_sheet_id: String,
        destination_range: GridRange,
        mode: SpreadsheetPasteMode,
    },
}

/// A command by the texts and views it holds.
pub enum CommandView {
    CreateSheet { id: Seq<char>, name: Seq<char> },
    RenameSheet { sheet_id: Seq<char>, name: Seq<char> },
    DeleteSheet { sheet_id: Seq<char> },
    SetCell {
        sheet_id: Seq<char>,
        row: u32,
        column: u32,
        value: Option<CellValueView>,
        formula: Option<Seq<char>>,
        attrs: Seq<(Seq<char>, Seq<char>)>,
    },
    SetCellStyle { sheet_id: Seq<char>, row: u32, column: u32, style: Option<Seq<char>> },
    ClearCell { sheet_id: Seq<char>, row: u32, column: u32 },
    SetFreezePane { sheet_id: Seq<char>, rows: u32, columns: u32 },
    SetRowDimensions { sheet_id: Seq<char>, rows: Option<u32> },
    SetColumnDimensions { sheet_id: Seq<char>, columns: Option<u32> },
    ClearRange { sheet_id: Seq<char>, range: GridRange, mode: ClearRangeMode },
    MergeCells { sheet_id: Seq<char>, range: GridRange },
    UnmergeCells { sheet_id: Seq<char>, range: GridRange },
    SetSheetMetadata { sheet_id: Seq<char>, metadata: SheetMetadata, merged_ranges: Seq<GridRange> },
    InsertRows { sheet_id: Seq<char>, at: u32, count: u32 },
    DeleteRows { sheet_id: Seq<char>, at: u32, count: u32 },
    InsertColumns { sheet_id: Seq<char>, at: u32, count: u32 },
    DeleteColumns { sheet_id: Seq<char>, at: u32, count: u32 },
    PasteRange {
        sheet_id: Seq<char>,
        start_row: u32,
        start_column: u32,
        row_count: u32,
        column_count: u32,
        cells: Seq<ClipView>,
        mode: SpreadsheetPasteMode,
        source_origin: Option<SpreadsheetClipboardOrigin>,
    },
    FillRange {
        source_sheet_id: Seq<char>,
        source_range: GridRange,
        destination_sheet_id: Seq<char>,
        destination_range: GridRange,
        mode: SpreadsheetPasteMode,
    },
}

impl SpreadsheetCommand {
    pub open spec fn view(&self) -> CommandView {
        match *self {
            SpreadsheetCommand::CreateSheet { id, name } => CommandView::CreateSheet { id: id@, name: name@ },
            SpreadsheetCommand::RenameSheet { sheet_id, name } => CommandView::RenameSheet { sheet_id: sheet_id@, name: name@ },
            SpreadsheetCommand::DeleteSheet { sheet_id } => CommandView::DeleteSheet { sheet_id: sheet_id@ },
            SpreadsheetCommand::SetCell { sheet_id, row, column, value, formula, attrs } => CommandView::SetCell {
                sheet_id: sheet_id@,
                row,
                column,
                value: opt_value_view(value),
                formula: text_view(formula),
                attrs: attrs_view(attrs@),
            },
            SpreadsheetCommand::SetCellStyle { sheet_id, row, column, style } =>
                CommandView::SetCellStyle { sheet_id: sheet_id@, row, column, style: text_view(style) },
            SpreadsheetCommand::ClearCell { sheet_id, row, column } => CommandView::ClearCell { sheet_id: sheet_id@, row, column },
            SpreadsheetCommand::SetFreezePane { sheet_id, rows, columns } =>
                CommandView::SetFreezePane { sheet_id: sheet_id@, rows, columns },
            SpreadsheetCommand::SetRowDimensions { sheet_id, rows } => CommandView::SetRowDimensions { sheet_id: sheet_id@, rows },
            SpreadsheetCommand::SetColumnDimensions { sheet_id, columns } =>
                CommandView::SetColumnDimensions { sheet_id: sheet_id@, columns },
            SpreadsheetCommand::ClearRange { sheet_id, range, mode } =>
                CommandView::ClearRange { sheet_id: sheet_id@, range, mode },
            SpreadsheetCommand::MergeCells { sheet_id, range } => CommandView::MergeCells { sheet_id: sheet_id@, range },
            SpreadsheetCommand::UnmergeCells { sheet_id, range } => CommandView::UnmergeCells { sheet_id: sheet_id@, range },
            SpreadsheetCommand::SetSheetMetadata { sheet_id, metadata, merged_ranges } => CommandView::SetSheetMetadata {
                sheet_id: sheet_id@,
                metadata,
                merged_ranges: merged_ranges@,
            },
            SpreadsheetCommand::InsertRows { sheet_id, at, count } => CommandView::InsertRows { sheet_id: sheet_id@, at, count },
            SpreadsheetCommand::DeleteRows { sheet_id, at, count } => CommandView::DeleteRows { sheet_id: sheet_id@, at, count },
            SpreadsheetCommand::InsertColumns { sheet_id, at, count } =>
                CommandView::InsertColumns { sheet_id: sheet_id@, at, count },
            SpreadsheetCommand::DeleteColumns { sheet_id, at, count } =>
                CommandView::DeleteColumns { sheet_id: sheet_id@, at, count },
            SpreadsheetCommand::PasteRange { sheet_id, start_row, start_column, row_count, column_count, cells, mode, source_origin } =>
                CommandView::PasteRange {
                    sheet_id: sheet_id@,
                    start_row,
                    start_column,
                    row_count,
                    column_count,
                    cells: cells@.map_values(|c: SpreadsheetClipboardCell| clip_view(c)),
                    mode,
                    source_origin,
                },
            SpreadsheetCommand::FillRange { source_sheet_id, source_range, destination_sheet_id, destination_range, mode } =>
                CommandView::FillRange {
                    source_sheet_id: source_sheet_id@,
                    source_range,
                    destination_sheet_id: destination_sheet_id@,
                    destination_range,
                    mode,
                },
        }
    }
}

/// Why a command is refused.
pub enum Refusal {
    EmptySheetIdentity,
    DuplicateSheet(Seq<char>),
    MissingSheet(Seq<char>),
    Invalid(Seq<char>),
    MergeOverlap,
    MergeUnknown,
}

/// What a command does to a workbook.
pub enum Outcome {
    Refused(Refusal),
    Unchanged,
    Changed(MutationView),
    /// Several mutations, applied in turn.
    Edited(Seq<MutationView>),
}

/// `e` is the error of refusal `r`.
pub open spec fn reports(e: SpreadsheetEngineError, r: Refusal) -> bool {
    match r {
        Refusal::EmptySheetIdentity => e is EmptySheetIdentity,
        Refusal::DuplicateSheet(s) => e matches SpreadsheetEngineError::DuplicateSheet(x) && x@ == s,
        Refusal::MissingSheet(s) => e matches SpreadsheetEngineError::MissingSheet(x) && x@ == s,
        Refusal::Invalid(s) => e matches SpreadsheetEngineError::InvalidMutation(x) && x@ == s,
        Refusal::MergeOverlap => e is MergeOverlap,
        Refusal::MergeUnknown => e is MergeUnknown,
    }
}

/// Whether range `a` sorts before range `b` by start row, start column, end
/// row, end column.
pub open spec fn range_key_lt(a: GridRange, b: GridRange) -> bool {
    a.start_row < b.start_row || (a.start_row == b.start_row && (a.start_column < b.start_column || (a.start_column
        == b.start_column && (a.end_row < b.end_row || (a.end_row == b.end_row && a.end_column < b.end_column)))))
}

/// `x` inserted after every range that does not sort after it.
pub open spec fn insert_range(rs: Seq<GridRange>, x: GridRange) -> Seq<GridRange>
    decreases rs.len(),
{
    if rs.len() == 0 {
        seq![x]
    } else if range_key_lt(x, rs[0]) {
        seq![x] + rs
    } else {
        seq![rs[0]] + insert_range(rs.drop_first(), x)
    }
}

/// The ranges stably sorted by start row, start column, end row, end column.
pub open spec fn sort_ranges(rs: Seq<GridRange>) -> Seq<GridRange>
    decreases rs.len(),
{
    if rs.len() == 0 {
        Seq::empty()
    } else {
        insert_range(sort_ranges(rs.drop_last()), rs.last())
    }
}

/// Whether two inclusive ranges share a cell.
pub open spec fn ranges_meet(a: GridRange, b: GridRange) -> bool {
    a.start_row <= b.end_row && b.start_row <= a.end_row && a.start_column <= b.end_column && b.start_column <= a.end_column
}

/// The cells a merge keeps: those outside the region and its top-left anchor.
pub open spec fn kept_by_merge(r: GridRange) -> spec_fn(CellView) -> bool {
    |x: CellView| !r.spec_contains(x.0 as int, x.1 as int) || (x.0 == r.start_row && x.1 == r.start_column)
}

/// The index of the first merged region equal to `r`, or -1.
pub open spec fn merge_pos(rs: Seq<GridRange>, r: GridRange) -> int
    decreases rs.len(),
{
    if rs.len() == 0 {
        -1
    } else {
        let p = merge_pos(rs.drop_last(), r);
        if p >= 0 {
            p
        } else if rs.last() == r {
            rs.len() - 1
        } else {
            -1
        }
    }
}

/// The metadata of a new sheet.
pub open spec fn fresh_metadata() -> SheetMetadata {
    SheetMetadata { freeze: FreezePane { rows: 0, columns: 0 }, row_count: None, column_count: None }
}

/// The cell the workbook holds at an address, if its sheet exists.
pub open spec fn present_cell(v: Seq<SheetView>, sheet_id: Seq<char>, row: u32, column: u32) -> Option<CellView> {
    let i = sheet_pos(v, sheet_id);
    if i >= 0 { cell_at(v[i].2, row, column) } else { None }
}

/// The cell a write leaves: a blank formula counts as none, and a cell with
/// no value, formula, attributes or style is not kept.
pub open spec fn normalized(
    row: u32,
    column: u32,
    value: Option<CellValueView>,
    formula: Option<Seq<char>>,
    attrs: Seq<(Seq<char>, Seq<char>)>,
    style: Option<Seq<char>>,
) -> Option<CellView> {
    let f = match formula {
        Some(t) => if trim(t).len() == 0 { None } else { Some(t) },
        None => None,
    };
    if value is None && f is None && attrs.len() == 0 && style is None {
        None
    } else {
        Some((row, column, f, value, style, attrs))
    }
}

pub open spec fn style_of(c: Option<CellView>) -> Option<Seq<char>> {
    match c {
        Some(x) => x.4,
        None => None,
    }
}

/// The cell without its value and formula.
pub open spec fn without_contents(c: CellView) -> CellView {
    (c.0, c.1, None, None, c.4, c.5)
}

/// The cell without its style.
pub open spec fn without_style(c: CellView) -> CellView {
    (c.0, c.1, c.2, c.3, None, c.5)
}

/// The cells of a range after clearing it: nothing left when all is
/// cleared; the styled cells, emptied, when contents are; the cells that
/// still hold a value, formula or attribute, unstyled, when formats are.
pub open spec fn cleared(before: Seq<CellView>, mode: ClearRangeMode) -> Seq<CellView>
    decreases before.len(),
{
    if before.len() == 0 {
        Seq::empty()
    } else {
        let rest = cleared(before.drop_last(), mode);
        let c = before.last();
        match mode {
            ClearRangeMode::All => rest,
            ClearRangeMode::Contents => if c.4 is Some { rest.push(without_contents(c)) } else { rest },
            ClearRangeMode::Formats => if c.3 is Some || c.2 is Some || c.5.len() > 0 {
                rest.push(without_style(c))
            } else {
                rest
            },
        }
    }
}

/// Clearing keeps the order and places of the cells it keeps.
proof fn lemma_cleared(before: Seq<CellView>, mode: ClearRangeMode, range: GridRange)
    requires
        sorted_cells(before),
        forall|k: int| 0 <= k < before.len() ==> range.spec_contains((#[trigger] before[k]).0 as int, before[k].1 as int),
    ensures
        sorted_cells(cleared(before, mode)),
        forall|k: int| 0 <= k < cleared(before, mode).len() ==> range.spec_contains(
            (#[trigger] cleared(before, mode)[k]).0 as int,
            cleared(before, mode)[k].1 as int,
        ),
        forall|k: int| 0 <= k < cleared(before, mode).len() ==> exists|j: int| 0 <= j < before.len()
            && (#[trigger] cleared(before, mode)[k]).0 == before[j].0 && cleared(before, mode)[k].1 == before[j].1,
    decreases before.len(),
{
    if before.len() > 0 {
        let b = before.drop_last();
        assert(sorted_cells(b)) by {
            assert forall|i: int, j: int| 0 <= i < j < b.len() implies pos_before(#[trigger] b[i], #[trigger] b[j]) by {
                assert(b[i] == before[i] && b[j] == before[j]);
            }
        }
        assert forall|k: int| 0 <= k < b.len() implies range.spec_contains((#[trigger] b[k]).0 as int, b[k].1 as int) by {
            assert(b[k] == before[k]);
        }
        lemma_cleared(b, mode, range);
        let rest = cleared(b, mode);
        let r = cleared(before, mode);
        let c = before.last();
        assert forall|k: int| 0 <= k < rest.len() implies pos_before(#[trigger] rest[k], c) by {
            let j = choose|j: int| 0 <= j < b.len() && rest[k].0 == b[j].0 && rest[k].1 == b[j].1;
            assert(pos_before(before[j], before[before.len() - 1]));
        }
        assert forall|i: int, j: int| 0 <= i < j < r.len() implies pos_before(#[trigger] r[i], #[trigger] r[j]) by {
            if j == rest.len() {
                assert(r[i] == rest[i]);
            } else {
                assert(r[i] == rest[i] && r[j] == rest[j]);
            }
        }
        assert forall|k: int| 0 <= k < r.len() implies range.spec_contains((#[trigger] r[k]).0 as int, r[k].1 as int)
            && exists|j: int| 0 <= j < before.len() && r[k].0 == before[j].0 && r[k].1 == before[j].1 by {
            if k < rest.len() {
                assert(r[k] == rest[k]);
                let j = choose|j: int| 0 <= j < b.len() && rest[k].0 == b[j].0 && rest[k].1 == b[j].1;
                assert(before[j] == b[j]);
            } else {
                assert(r[k].0 == before[before.len() - 1].0 && r[k].1 == before[before.len() - 1].1);
            }
        }
    }
}

/// What the command does to the workbook `v`.
/// A row or column insert or delete of sheet `sheet_id`: an edit of no
/// slots changes nothing; otherwise the sheet must exist and the edit fit.
/// The sheet changes, and so does each other sheet whose formulas read it.
pub open spec fn structural_outcome(v: Seq<SheetView>, sheet_id: Seq<char>, axis: SheetAxis, op: RemapOp) -> Outcome {
    let i = sheet_pos(v, sheet_id);
    if op_count(op) == 0 {
        Outcome::Unchanged
    } else if i < 0 {
        Outcome::Refused(Refusal::MissingSheet(sheet_id))
    } else if edited_sheet(v, i, axis, op) is None {
        Outcome::Refused(Refusal::Invalid(STRUCTURAL_EDIT_OVERFLOW@))
    } else if structural_changes(v, i, axis, op).len() == 0 {
        Outcome::Unchanged
    } else {
        Outcome::Edited(structural_changes(v, i, axis, op))
    }
}

/// The last row a paste may reach on a sheet with this metadata: its
/// declared row count, at most the largest worksheet's.
pub open spec fn paste_rows(md: SheetMetadata) -> u32 {
    match md.row_count {
        Some(n) => if n <= MAX_SHEET_ROWS { n } else { MAX_SHEET_ROWS },
        None => MAX_SHEET_ROWS,
    }
}

pub open spec fn paste_columns(md: SheetMetadata) -> u32 {
    match md.column_count {
        Some(n) => if n <= MAX_SHEET_COLUMNS { n } else { MAX_SHEET_COLUMNS },
        None => MAX_SHEET_COLUMNS,
    }
}

/// Every clipboard cell lies inside the block and no two share an offset.
pub open spec fn clips_fit(cells: Seq<ClipView>, row_count: u32, column_count: u32) -> bool {
    &&& forall|k: int| 0 <= k < cells.len() ==> (#[trigger] cells[k]).0 < row_count && cells[k].1 < column_count
    &&& forall|k1: int, k2: int|
        0 <= k1 < k2 < cells.len() ==> !((#[trigger] cells[k1]).0 == (#[trigger] cells[k2]).0 && cells[k1].1 == cells[k2].1)
}

/// The block copied from `origin` reaches past the last coordinate.
pub open spec fn origin_overflows(origin: Option<SpreadsheetClipboardOrigin>, row_count: u32, column_count: u32) -> bool {
    match origin {
        Some(o) => o.row + row_count - 1 > u32::MAX || o.column + column_count - 1 > u32::MAX,
        None => false,
    }
}

/// Each clipboard cell with the cell it was copied from, when the block's
/// origin is known.
pub open spec fn with_sources(cells: Seq<ClipView>, origin: Option<SpreadsheetClipboardOrigin>) -> Seq<(ClipView, Option<SpreadsheetClipboardOrigin>)> {
    cells.map_values(
        |c: ClipView|
            (c, match origin {
                Some(o) => Some(SpreadsheetClipboardOrigin { row: (o.row + c.0) as u32, column: (o.column + c.1) as u32 }),
                None => None,
            }),
    )
}

/// A paste of a `row_count` by `column_count` block at
/// `(start_row, start_column)`: refused when the block is empty, too large,
/// past the last coordinate or outside the sheet, when a clipboard cell
/// lies outside it or shares an offset, or when its origin's block would
/// leave the coordinates; otherwise the range changes to what the paste
/// leaves, unless that is what it holds.
pub open spec fn paste_outcome(
    v: Seq<SheetView>,
    sheet_id: Seq<char>,
    start_row: u32,
    start_column: u32,
    row_count: u32,
    column_count: u32,
    cells: Seq<ClipView>,
    mode: SpreadsheetPasteMode,
    origin: Option<SpreadsheetClipboardOrigin>,
) -> Outcome {
    let end_row = start_row + row_count - 1;
    let end_column = start_column + column_count - 1;
    let i = sheet_pos(v, sheet_id);
    if row_count == 0 || column_count == 0 {
        Outcome::Refused(Refusal::Invalid(PASTE_EMPTY@))
    } else if row_count * column_count > MAX_PASTE_CELLS {
        Outcome::Refused(Refusal::Invalid(PASTE_TOO_LARGE@))
    } else if end_row > u32::MAX {
        Outcome::Refused(Refusal::Invalid(PASTE_ROW_OVERFLOW@))
    } else if end_column > u32::MAX {
        Outcome::Refused(Refusal::Invalid(PASTE_COLUMN_OVERFLOW@))
    } else if i < 0 {
        Outcome::Refused(Refusal::MissingSheet(sheet_id))
    } else if end_row >= paste_rows(v[i].3) || end_column >= paste_columns(v[i].3) {
        Outcome::Refused(Refusal::Invalid(PASTE_OUTSIDE_SHEET@))
    } else if !clips_fit(cells, row_count, column_count) {
        Outcome::Refused(Refusal::Invalid(CLIPBOARD_INVALID@))
    } else if origin_overflows(origin, row_count, column_count) {
        Outcome::Refused(Refusal::Invalid(SOURCE_ORIGIN_OVERFLOW@))
    } else {
        let range = GridRange { start_row, start_column, end_row: end_row as u32, end_column: end_column as u32 };
        let before = v[i].2.filter(in_range(range));
        let after = paste_result(before, with_sources(cells, origin), range, mode);
        if before == after {
            Outcome::Unchanged
        } else {
            Outcome::Changed(MutationView::RangeChanged { sheet_id, range, before, after })
        }
    }
}

/// The cells of a range.
pub open spec fn range_size(r: GridRange) -> int {
    (r.end_row - r.start_row + 1) * (r.end_column - r.start_column + 1)
}

/// A fill of `dr` on sheet `dst` from `sr` on sheet `src`: refused when
/// either range is reversed, the destination is too large, either sheet is
/// missing or the destination leaves its sheet; otherwise the destination
/// changes to what pasting the repeated source leaves, unless that is what
/// it holds.
pub open spec fn fill_outcome(
    v: Seq<SheetView>,
    src: Seq<char>,
    sr: GridRange,
    dst: Seq<char>,
    dr: GridRange,
    mode: SpreadsheetPasteMode,
) -> Outcome {
    let si = sheet_pos(v, src);
    let di = sheet_pos(v, dst);
    if !sr.wf() {
        Outcome::Refused(Refusal::Invalid(FILL_SOURCE@ + RANGE_REVERSED@))
    } else if !dr.wf() {
        Outcome::Refused(Refusal::Invalid(FILL_TARGET@ + RANGE_REVERSED@))
    } else if range_size(dr) > MAX_PASTE_CELLS {
        Outcome::Refused(Refusal::Invalid(FILL_TOO_LARGE@))
    } else if si < 0 {
        Outcome::Refused(Refusal::MissingSheet(src))
    } else if di < 0 {
        Outcome::Refused(Refusal::MissingSheet(dst))
    } else if dr.end_row >= paste_rows(v[di].3) || dr.end_column >= paste_columns(v[di].3) {
        Outcome::Refused(Refusal::Invalid(PASTE_OUTSIDE_SHEET@))
    } else {
        let before = v[di].2.filter(in_range(dr));
        let after = paste_result(before, fill_clips(v[si].2.filter(in_range(sr)), sr, dr), dr, mode);
        if before == after {
            Outcome::Unchanged
        } else {
            Outcome::Changed(MutationView::RangeChanged { sheet_id: dst, range: dr, before, after })
        }
    }
}

pub open spec fn spec_command(v: Seq<SheetView>, c: CommandView) -> Outcome {
    match c {
        CommandView::FillRange { source_sheet_id, source_range, destination_sheet_id, destination_range, mode } =>
            fill_outcome(v, source_sheet_id, source_range, destination_sheet_id, destination_range, mode),
        CommandView::PasteRange { sheet_id, start_row, start_column, row_count, column_count, cells, mode, source_origin } =>
            paste_outcome(v, sheet_id, start_row, start_column, row_count, column_count, cells, mode, source_origin),
        CommandView::InsertRows { sheet_id, at, count } => structural_outcome(v, sheet_id, SheetAxis::Row, RemapOp::Insert(at, count)),
        CommandView::DeleteRows { sheet_id, at, count } => structural_outcome(v, sheet_id, SheetAxis::Row, RemapOp::Delete(at, count)),
        CommandView::InsertColumns { sheet_id, at, count } =>
            structural_outcome(v, sheet_id, SheetAxis::Column, RemapOp::Insert(at, count)),
        CommandView::DeleteColumns { sheet_id, at, count } =>
            structural_outcome(v, sheet_id, SheetAxis::Column, RemapOp::Delete(at, count)),
        CommandView::CreateSheet { id, name } => if trim(id).len() == 0 || trim(name).len() == 0 {
            Outcome::Refused(Refusal::EmptySheetIdentity)
        } else if sheet_pos(v, id) >= 0 {
            Outcome::Refused(Refusal::DuplicateSheet(id))
        } else {
            Outcome::Changed(MutationView::SheetChanged {
                sheet_id: id,
                index: v.len() as int,
                before: None,
                after: Some((id, name, Seq::empty(), fresh_metadata(), Seq::empty())),
            })
        },
        CommandView::RenameSheet { sheet_id, name } => {
            let i = sheet_pos(v, sheet_id);
            if trim(name).len() == 0 {
                Outcome::Refused(Refusal::EmptySheetIdentity)
            } else if i < 0 {
                Outcome::Refused(Refusal::MissingSheet(sheet_id))
            } else {
                Outcome::Changed(MutationView::SheetChanged {
                    sheet_id,
                    index: i,
                    before: Some(v[i]),
                    after: Some((v[i].0, name, v[i].2, v[i].3, v[i].4)),
                })
            }
        },
        CommandView::DeleteSheet { sheet_id } => {
            let i = sheet_pos(v, sheet_id);
            if i < 0 {
                Outcome::Refused(Refusal::MissingSheet(sheet_id))
            } else {
                Outcome::Changed(MutationView::SheetChanged { sheet_id, index: i, before: Some(v[i]), after: None })
            }
        },
        CommandView::SetCell { sheet_id, row, column, value, formula, attrs } => {
            let before = present_cell(v, sheet_id, row, column);
            let after = normalized(row, column, value, formula, attrs, style_of(before));
            if before == after {
                Outcome::Unchanged
            } else if sheet_pos(v, sheet_id) < 0 {
                Outcome::Refused(Refusal::MissingSheet(sheet_id))
            } else {
                Outcome::Changed(MutationView::CellChanged { sheet_id, row, column, before, after })
            }
        },
        CommandView::SetCellStyle { sheet_id, row, column, style } => {
            let before = present_cell(v, sheet_id, row, column);
            if before matches Some(b) && b.4 == style {
                Outcome::Unchanged
            } else if sheet_pos(v, sheet_id) < 0 {
                Outcome::Refused(Refusal::MissingSheet(sheet_id))
            } else {
                let after = match before {
                    Some(b) => (b.0, b.1, b.2, b.3, style, b.5),
                    None => (row, column, None, None, style, Seq::empty()),
                };
                Outcome::Changed(MutationView::CellChanged { sheet_id, row, column, before, after: Some(after) })
            }
        },
        CommandView::ClearCell { sheet_id, row, column } => {
            let before = present_cell(v, sheet_id, row, column);
            if before is None {
                Outcome::Unchanged
            } else {
                Outcome::Changed(MutationView::CellChanged { sheet_id, row, column, before, after: None })
            }
        },
        CommandView::SetFreezePane { sheet_id, rows, columns } => {
            let i = sheet_pos(v, sheet_id);
            if i < 0 {
                Outcome::Refused(Refusal::MissingSheet(sheet_id))
            } else if v[i].3.row_count matches Some(n) && rows > n {
                Outcome::Refused(Refusal::Invalid(FREEZE_ROWS_EXCEED@))
            } else if v[i].3.column_count matches Some(n) && columns > n {
                Outcome::Refused(Refusal::Invalid(FREEZE_COLUMNS_EXCEED@))
            } else if v[i].3.freeze == (FreezePane { rows, columns }) {
                Outcome::Unchanged
            } else {
                Outcome::Changed(MutationView::PaneChanged { sheet_id, before: v[i].3.freeze, after: FreezePane { rows, columns } })
            }
        },
        CommandView::SetRowDimensions { sheet_id, rows } => {
            let i = sheet_pos(v, sheet_id);
            if i < 0 {
                Outcome::Refused(Refusal::MissingSheet(sheet_id))
            } else if rows matches Some(n) && v[i].3.freeze.rows > n {
                Outcome::Refused(Refusal::Invalid(ROWS_BELOW_FREEZE@))
            } else if v[i].3.row_count == rows {
                Outcome::Unchanged
            } else {
                Outcome::Changed(MutationView::RowDimensionsChanged { sheet_id, before: v[i].3.row_count, after: rows })
            }
        },
        CommandView::SetColumnDimensions { sheet_id, columns } => {
            let i = sheet_pos(v, sheet_id);
            if i < 0 {
                Outcome::Refused(Refusal::MissingSheet(sheet_id))
            } else if columns matches Some(n) && v[i].3.freeze.columns > n {
                Outcome::Refused(Refusal::Invalid(COLUMNS_BELOW_FREEZE@))
            } else if v[i].3.column_count == columns {
                Outcome::Unchanged
            } else {
                Outcome::Changed(MutationView::ColumnDimensionsChanged { sheet_id, before: v[i].3.column_count, after: columns })
            }
        },
        CommandView::ClearRange { sheet_id, range, mode } => {
            let i = sheet_pos(v, sheet_id);
            if range.start_row > range.end_row || range.start_column > range.end_column {
                Outcome::Refused(Refusal::Invalid(CLEAR_RANGE_REVERSED@))
            } else if i < 0 {
                Outcome::Refused(Refusal::MissingSheet(sheet_id))
            } else {
                let before = v[i].2.filter(in_range(range));
                let after = cleared(before, mode);
                if before == after {
                    Outcome::Unchanged
                } else {
                    Outcome::Changed(MutationView::RangeChanged { sheet_id, range, before, after })
                }
            }
        },
        CommandView::MergeCells { sheet_id, range } => {
            let i = sheet_pos(v, sheet_id);
            if range.start_row > range.end_row || range.start_column > range.end_column {
                Outcome::Refused(Refusal::Invalid(MERGE_RANGE_REVERSED@))
            } else if i < 0 {
                Outcome::Refused(Refusal::MissingSheet(sheet_id))
            } else if exists|k: int| 0 <= k < v[i].4.len() && ranges_meet(#[trigger] v[i].4[k], range) {
                Outcome::Refused(Refusal::MergeOverlap)
            } else {
                Outcome::Changed(MutationView::SheetChanged {
                    sheet_id,
                    index: i,
                    before: Some(v[i]),
                    after: Some((v[i].0, v[i].1, v[i].2.filter(kept_by_merge(range)), v[i].3, sort_ranges(v[i].4.push(range)))),
                })
            }
        },
        CommandView::SetSheetMetadata { sheet_id, metadata, merged_ranges } => {
            let i = sheet_pos(v, sheet_id);
            if i < 0 {
                Outcome::Refused(Refusal::MissingSheet(sheet_id))
            } else if v[i].3 == metadata && v[i].4 == merged_ranges {
                Outcome::Unchanged
            } else {
                Outcome::Changed(MutationView::SheetChanged {
                    sheet_id,
                    index: i,
                    before: Some(v[i]),
                    after: Some((v[i].0, v[i].1, v[i].2, metadata, merged_ranges)),
                })
            }
        },
        CommandView::UnmergeCells { sheet_id, range } => {
            let i = sheet_pos(v, sheet_id);
            if i < 0 {
                Outcome::Refused(Refusal::MissingSheet(sheet_id))
            } else if merge_pos(v[i].4, range) < 0 {
                Outcome::Refused(Refusal::MergeUnknown)
            } else {
                Outcome::Changed(MutationView::SheetChanged {
                    sheet_id,
                    index: i,
                    before: Some(v[i]),
                    after: Some((v[i].0, v[i].1, v[i].2, v[i].3, v[i].4.remove(merge_pos(v[i].4, range)))),
                })
            }
        },
    }
}

/// A command's mutation records the present state and has the shape the
/// engine records.
pub proof fn lemma_command_records(v: Seq<SheetView>, c: CommandView)
    requires
        model_wf(v),
    ensures
        spec_command(v, c) matches Outcome::Changed(m) ==> mutation_wf(m) && records_present(v, m),
        spec_command(v, c) matches Outcome::Edited(ms) ==> applies_in_turn(v, ms),
{
    match c {
        CommandView::CreateSheet { id, .. } => {
            if sheet_pos(v, id) < 0 {
                assert(sorted_cells(Seq::<CellView>::empty()));
            }
        },
        CommandView::RenameSheet { sheet_id, .. } => {
            let i = sheet_pos(v, sheet_id);
            if i >= 0 {
                assert(sorted_cells(v[i].2));
            }
        },
        CommandView::MergeCells { sheet_id, range } => {
            let i = sheet_pos(v, sheet_id);
            if i >= 0 {
                lemma_filter_sorted(v[i].2, kept_by_merge(range));
            }
        },
        CommandView::SetSheetMetadata { sheet_id, .. } => {
            let i = sheet_pos(v, sheet_id);
            if i >= 0 {
                assert(sorted_cells(v[i].2));
            }
        },
        CommandView::PasteRange { sheet_id, start_row, start_column, row_count, column_count, cells, mode, source_origin } =>
            lemma_paste_records(v, sheet_id, start_row, start_column, row_count, column_count, cells, mode, source_origin),
        CommandView::FillRange { source_sheet_id, source_range, destination_sheet_id, destination_range, mode } =>
            lemma_fill_records(v, source_sheet_id, source_range, destination_sheet_id, destination_range, mode),
        CommandView::InsertRows { sheet_id, at, count } => lemma_structural_records(v, sheet_id, SheetAxis::Row, RemapOp::Insert(at, count)),
        CommandView::DeleteRows { sheet_id, at, count } => lemma_structural_records(v, sheet_id, SheetAxis::Row, RemapOp::Delete(at, count)),
        CommandView::InsertColumns { sheet_id, at, count } =>
            lemma_structural_records(v, sheet_id, SheetAxis::Column, RemapOp::Insert(at, count)),
        CommandView::DeleteColumns { sheet_id, at, count } =>
            lemma_structural_records(v, sheet_id, SheetAxis::Column, RemapOp::Delete(at, count)),
        CommandView::UnmergeCells { sheet_id, .. } => {
            let i = sheet_pos(v, sheet_id);
            if i >= 0 {
                assert(sorted_cells(v[i].2));
            }
        },
        CommandView::ClearRange { sheet_id, range, mode } => {
            let i = sheet_pos(v, sheet_id);
            if i >= 0 {
                let s = v[i].2;
                assert(sorted_cells(s));
                lemma_filter_sorted(s, in_range(range));
                let before = s.filter(in_range(range));
                assert forall|k: int| 0 <= k < before.len() implies range.spec_contains((#[trigger] before[k]).0 as int, before[k].1 as int) by {
                    s.lemma_filter_pred(in_range(range), k);
                }
                lemma_cleared(before, mode, range);
            }
        },
        _ => {},
    }
}

proof fn lemma_structural_records(v: Seq<SheetView>, sheet_id: Seq<char>, axis: SheetAxis, op: RemapOp)
    requires
        model_wf(v),
    ensures
        structural_outcome(v, sheet_id, axis, op) matches Outcome::Edited(ms) ==> applies_in_turn(v, ms),
{
    let i = sheet_pos(v, sheet_id);
    if i >= 0 {
        lemma_structural_chain(v, i, axis, op);
    }
}

proof fn lemma_paste_records(
    v: Seq<SheetView>,
    sheet_id: Seq<char>,
    start_row: u32,
    start_column: u32,
    row_count: u32,
    column_count: u32,
    cells: Seq<ClipView>,
    mode: SpreadsheetPasteMode,
    origin: Option<SpreadsheetClipboardOrigin>,
)
    requires
        model_wf(v),
    ensures
        paste_outcome(v, sheet_id, start_row, start_column, row_count, column_count, cells, mode, origin) matches Outcome::Changed(
            m,
        ) ==> mutation_wf(m) && records_present(v, m),
{
    let i = sheet_pos(v, sheet_id);
    let end_row = start_row + row_count - 1;
    let end_column = start_column + column_count - 1;
    if row_count > 0 && column_count > 0 && end_row <= u32::MAX && end_column <= u32::MAX && i >= 0 && clips_fit(
        cells,
        row_count,
        column_count,
    ) {
        let range = GridRange { start_row, start_column, end_row: end_row as u32, end_column: end_column as u32 };
        let s = v[i].2;
        assert(sorted_cells(s));
        lemma_filter_sorted(s, in_range(range));
        let before = s.filter(in_range(range));
        assert forall|k: int| 0 <= k < before.len() implies range.spec_contains((#[trigger] before[k]).0 as int, before[k].1 as int) by {
            s.lemma_filter_pred(in_range(range), k);
        }
        let prepared = with_sources(cells, origin);
        assert forall|k: int|
            0 <= k < prepared.len() implies range.spec_contains(
            target_of((#[trigger] prepared[k]).0, range).0 as int,
            target_of(prepared[k].0, range).1 as int,
        ) by {
            assert(prepared[k].0 == cells[k]);
        }
        lemma_paste_result(before, prepared, range, mode);
    }
}

proof fn lemma_fill_records(
    v: Seq<SheetView>,
    src: Seq<char>,
    sr: GridRange,
    dst: Seq<char>,
    dr: GridRange,
    mode: SpreadsheetPasteMode,
)
    requires
        model_wf(v),
    ensures
        fill_outcome(v, src, sr, dst, dr, mode) matches Outcome::Changed(m) ==> mutation_wf(m) && records_present(v, m),
{
    let si = sheet_pos(v, src);
    let di = sheet_pos(v, dst);
    if sr.wf() && dr.wf() && si >= 0 && di >= 0 {
        let s = v[di].2;
        assert(sorted_cells(s));
        lemma_filter_sorted(s, in_range(dr));
        let before = s.filter(in_range(dr));
        assert forall|k: int| 0 <= k < before.len() implies dr.spec_contains((#[trigger] before[k]).0 as int, before[k].1 as int) by {
            s.lemma_filter_pred(in_range(dr), k);
        }
        let src_cells = v[si].2.filter(in_range(sr));
        let clips = fill_clips(src_cells, sr, dr);
        lemma_fill_targets(pos_map(src_cells), sr, dr, dr.end_row + 1);
        assert forall|k: int|
            0 <= k < clips.len() implies dr.spec_contains(
            target_of((#[trigger] clips[k]).0, dr).0 as int,
            target_of(clips[k].0, dr).1 as int,
        ) by {
            assert(clips[k].0.0 <= dr.end_row - dr.start_row);
        }
        lemma_paste_result(before, clips, dr, mode);
    }
}

/// The mutation of a fill.
fn fill_mutation(
    model: &SpreadsheetModel,
    src: &String,
    sr: GridRange,
    dst: &String,
    dr: GridRange,
    mode: SpreadsheetPasteMode,
) -> (res: Result<Option<SpreadsheetMutation>, SpreadsheetEngineError>)
    requires
        model_wf(model_view(*model)),
    ensures
        match fill_outcome(model_view(*model), src@, sr, dst@, dr, mode) {
            Outcome::Refused(r) => res matches Err(e) && reports(e, r),
            Outcome::Unchanged => res matches Ok(None),
            Outcome::Changed(m) => res matches Ok(Some(x)) && x@ == m,
            Outcome::Edited(_) => false,
        },
{
    let ghost v = model_view(*model);
    match validate_grid_range(sr, FILL_SOURCE) {
        Err(e) => {
            return Err(e);
        },
        Ok(_) => {},
    }
    match validate_grid_range(dr, FILL_TARGET) {
        Err(e) => {
            return Err(e);
        },
        Ok(_) => {},
    }
    let rows: u64 = (dr.end_row - dr.start_row) as u64 + 1;
    let columns: u64 = (dr.end_column - dr.start_column) as u64 + 1;
    let too_large = match rows.checked_mul(columns) {
        Some(n) => n > MAX_PASTE_CELLS,
        None => true,
    };
    if too_large {
        return Err(SpreadsheetEngineError::InvalidMutation(String::from_str(FILL_TOO_LARGE)));
    }
    let si = match locate(model, src) {
        None => {
            return Err(SpreadsheetEngineError::MissingSheet(src.clone()));
        },
        Some(k) => k,
    };
    proof {
        assert(v[si as int] == sheet_view(model.sheets@[si as int]));
        assert(sorted_cells(v[si as int].2));
        lemma_filter_sorted(v[si as int].2, in_range(sr));
    }
    let source_cells = range_cells(&model.sheets[si], sr);
    let prepared = fill_cells(&source_cells, sr, dr);
    let ghost di = sheet_pos(v, dst@);
    proof {
        if di >= 0 {
            crate::mutation::lemma_sheet_pos(v, di);
            assert(v[di] == sheet_view(model.sheets@[di]));
            assert(crate::dependency::first_sheet_with(*model, dst@, di)) by {
                assert forall|k: int| 0 <= k < di implies (#[trigger] model.sheets@[k]).id@ != dst@ by {
                    assert(v[k] == sheet_view(model.sheets@[k]));
                    assert(v[k].0 != v[di].0);
                }
            }
            assert(!no_sheet(*model, dst@));
        } else {
            assert(no_sheet(*model, dst@)) by {
                assert forall|i: int| !crate::dependency::first_sheet_with(*model, dst@, i) by {
                    if 0 <= i < model.sheets@.len() && model.sheets@[i].id@ == dst@ {
                        assert(v[i] == sheet_view(model.sheets@[i]));
                        crate::mutation::lemma_sheet_pos(v, i);
                    }
                }
            }
        }
        assert(rows * columns <= MAX_PASTE_CELLS);
        assert(rows <= rows * columns && columns <= rows * columns) by (nonlinear_arith)
            requires
                rows >= 1,
                columns >= 1,
        ;
    }
    match checked_paste_range(model, dst.as_str(), dr.start_row, dr.start_column, rows as u32, columns as u32) {
        Err(e) => {
            return Err(e);
        },
        Ok(_) => {},
    }
    proof {
        let clips = clip_views(prepared@);
        lemma_fill_targets(pos_map(cells_view(source_cells@)), sr, dr, dr.end_row + 1);
        assert forall|k: int| 0 <= k < prepared@.len() implies dr.start_row + (#[trigger] prepared@[k]).0.row_offset
            <= u32::MAX && dr.start_column + prepared@[k].0.column_offset <= u32::MAX by {
            assert(clips[k].0.0 == prepared@[k].0.row_offset);
        }
    }
    let (before, after) = match build_paste_after(model, dst.as_str(), dr, prepared, mode) {
        Err(e) => {
            return Err(e);
        },
        Ok(p) => p,
    };
    proof {
        let w = choose|w: int|
            crate::dependency::first_sheet_with(*model, dst@, w) && cells_view(before@) == cells_view(
                model.sheets@[w].cells@,
            ).filter(in_range(dr)) && cells_view(after@) == paste_result(cells_view(before@), clip_views(prepared@), dr, mode);
        assert(w == di);
        assert(v[di].2 == cells_view(model.sheets@[di].cells@));
    }
    if same_cells(&before, &after) {
        return Ok(None);
    }
    Ok(Some(SpreadsheetMutation::RangeChanged { sheet_id: dst.clone(), range: dr, before, after }))
}

/// A copy of a clipboard cell.
fn copy_clip(c: &SpreadsheetClipboardCell) -> (res: SpreadsheetClipboardCell)
    ensures
        clip_view(res) == clip_view(*c),
{
    SpreadsheetClipboardCell {
        row_offset: c.row_offset,
        column_offset: c.column_offset,
        value: copy_opt_value(&c.value),
        formula: copy_text(&c.formula),
        attrs: copy_attrs(&c.attrs),
        style: copy_text(&c.style),
    }
}

/// The mutation of a paste.
fn paste_mutation(
    model: &SpreadsheetModel,
    sheet_id: &String,
    start_row: u32,
    start_column: u32,
    row_count: u32,
    column_count: u32,
    cells: &Vec<SpreadsheetClipboardCell>,
    mode: SpreadsheetPasteMode,
    origin: Option<SpreadsheetClipboardOrigin>,
) -> (res: Result<Option<SpreadsheetMutation>, SpreadsheetEngineError>)
    requires
        model_wf(model_view(*model)),
    ensures
        match paste_outcome(
            model_view(*model),
            sheet_id@,
            start_row,
            start_column,
            row_count,
            column_count,
            cells@.map_values(|c: SpreadsheetClipboardCell| clip_view(c)),
            mode,
            origin,
        ) {
            Outcome::Refused(r) => res matches Err(e) && reports(e, r),
            Outcome::Unchanged => res matches Ok(None),
            Outcome::Changed(m) => res matches Ok(Some(x)) && x@ == m,
            Outcome::Edited(_) => false,
        },
{
    let ghost v = model_view(*model);
    let ghost cv = cells@.map_values(|c: SpreadsheetClipboardCell| clip_view(c));
    proof {
        if sheet_pos(v, sheet_id@) >= 0 {
            let i = sheet_pos(v, sheet_id@);
            crate::mutation::lemma_sheet_pos(v, i);
            assert(v[i] == sheet_view(model.sheets@[i]));
            assert(crate::dependency::first_sheet_with(*model, sheet_id@, i)) by {
                assert forall|k: int| 0 <= k < i implies (#[trigger] model.sheets@[k]).id@ != sheet_id@ by {
                    assert(v[k] == sheet_view(model.sheets@[k]));
                    assert(v[k].0 != v[i].0);
                }
            }
            assert(!no_sheet(*model, sheet_id@));
        } else {
            assert(no_sheet(*model, sheet_id@)) by {
                assert forall|i: int| !crate::dependency::first_sheet_with(*model, sheet_id@, i) by {
                    if 0 <= i < model.sheets@.len() && model.sheets@[i].id@ == sheet_id@ {
                        assert(v[i] == sheet_view(model.sheets@[i]));
                        crate::mutation::lemma_sheet_pos(v, i);
                    }
                }
            }
        }
    }
    let range = match checked_paste_range(model, sheet_id.as_str(), start_row, start_column, row_count, column_count) {
        Err(e) => {
            return Err(e);
        },
        Ok(r) => r,
    };
    proof {
        let i = sheet_pos(v, sheet_id@);
        assert(i >= 0);
        assert(crate::dependency::first_sheet_with(*model, sheet_id@, i));
    }
    match validate_clipboard_cells(cells.as_slice(), row_count, column_count) {
        Err(e) => {
            proof {
                assert(!clips_fit(cv, row_count, column_count)) by {
                    if clips_fit(cv, row_count, column_count) {
                        assert forall|k: int| 0 <= k < cells@.len() implies (#[trigger] cells@[k]).row_offset < row_count
                            && cells@[k].column_offset < column_count by {
                            assert(cv[k] == clip_view(cells@[k]));
                        }
                        assert forall|k1: int, k2: int| 0 <= k1 < k2 < cells@.len() implies !((#[trigger] cells@[k1]).row_offset
                            == (#[trigger] cells@[k2]).row_offset && cells@[k1].column_offset == cells@[k2].column_offset) by {
                            assert(cv[k1] == clip_view(cells@[k1]));
                            assert(cv[k2] == clip_view(cells@[k2]));
                        }
                    }
                }
            }
            return Err(e);
        },
        Ok(_) => {},
    }
    proof {
        assert(clips_fit(cv, row_count, column_count)) by {
            assert forall|k: int| 0 <= k < cv.len() implies (#[trigger] cv[k]).0 < row_count && cv[k].1 < column_count by {
                assert(cv[k] == clip_view(cells@[k]));
            }
            assert forall|k1: int, k2: int| 0 <= k1 < k2 < cv.len() implies !((#[trigger] cv[k1]).0 == (#[trigger] cv[k2]).0
                && cv[k1].1 == cv[k2].1) by {
                assert(cv[k1] == clip_view(cells@[k1]));
                assert(cv[k2] == clip_view(cells@[k2]));
            }
        }
    }
    if let Some(o) = origin {
        if o.row.checked_add(row_count - 1).is_none() || o.column.checked_add(column_count - 1).is_none() {
            return Err(SpreadsheetEngineError::InvalidMutation(String::from_str(SOURCE_ORIGIN_OVERFLOW)));
        }
    }
    let ghost target = with_sources(cv, origin);
    let mut prepared: Vec<(SpreadsheetClipboardCell, Option<SpreadsheetClipboardOrigin>)> = Vec::new();
    let mut k: usize = 0;
    while k < cells.len()
        invariant
            k <= cells@.len(),
            cv == cells@.map_values(|c: SpreadsheetClipboardCell| clip_view(c)),
            clips_fit(cv, row_count, column_count),
            !origin_overflows(origin, row_count, column_count),
            target == with_sources(cv, origin),
            clip_views(prepared@) == target.take(k as int),
            prepared@.len() == k,
            forall|j: int| 0 <= j < k ==> (#[trigger] prepared@[j]).0.row_offset == cells@[j].row_offset
                && prepared@[j].0.column_offset == cells@[j].column_offset,
        decreases cells@.len() - k,
    {
        let c = &cells[k];
        proof {
            assert(cv[k as int] == clip_view(*c));
            assert(c.row_offset < row_count && c.column_offset < column_count);
        }
        let source = match origin {
            Some(o) => Some(SpreadsheetClipboardOrigin { row: o.row + c.row_offset, column: o.column + c.column_offset }),
            None => None,
        };
        let ghost before = prepared@;
        prepared.push((copy_clip(c), source));
        proof {
            assert(clip_views(prepared@) =~= clip_views(before).push((clip_view(*c), source)));
            assert(target.take(k + 1) =~= target.take(k as int).push(target[k as int]));
        }
        k += 1;
    }
    proof {
        assert(target.take(cells@.len() as int) =~= target);
        assert forall|j: int| 0 <= j < prepared@.len() implies range.start_row + (#[trigger] prepared@[j]).0.row_offset
            <= u32::MAX && range.start_column + prepared@[j].0.column_offset <= u32::MAX by {
            assert(cv[j] == clip_view(cells@[j]));
        }
    }
    let (before, after) = match build_paste_after(model, sheet_id.as_str(), range, prepared, mode) {
        Err(e) => {
            return Err(e);
        },
        Ok(p) => p,
    };
    proof {
        let i = sheet_pos(v, sheet_id@);
        let w = choose|w: int|
            crate::dependency::first_sheet_with(*model, sheet_id@, w) && cells_view(before@) == cells_view(
                model.sheets@[w].cells@,
            ).filter(in_range(range)) && cells_view(after@) == paste_result(cells_view(before@), target, range, mode);
        assert(w == i);
        assert(v[i].2 == cells_view(model.sheets@[i].cells@));
    }
    if same_cells(&before, &after) {
        return Ok(None);
    }
    Ok(Some(SpreadsheetMutation::RangeChanged { sheet_id: sheet_id.clone(), range, before, after }))
}

/// Whether two sheets are the same.
fn same_sheet(a: &SheetModel, b: &SheetModel) -> (res: bool)
    ensures
        res == (sheet_view(*a) == sheet_view(*b)),
{
    let ma = a.metadata;
    let mb = b.metadata;
    crate::text::same_text(a.id.as_str(), b.id.as_str()) && crate::text::same_text(a.name.as_str(), b.name.as_str())
        && same_cells(&a.cells, &b.cells) && ma.freeze.rows == mb.freeze.rows && ma.freeze.columns == mb.freeze.columns
        && ma.row_count == mb.row_count && ma.column_count == mb.column_count && same_ranges(
        &a.merged_ranges,
        &b.merged_ranges,
    )
}

/// The mutations of a row or column edit of sheet `sheet_id`: the sheet's
/// own change, then each other sheet's whose formulas read it.
fn structural_mutations(model: &SpreadsheetModel, sheet_id: &String, axis: SheetAxis, op: RemapOp) -> (res: Result<
    Vec<SpreadsheetMutation>,
    SpreadsheetEngineError,
>)
    requires
        model_wf(model_view(*model)),
    ensures
        match structural_outcome(model_view(*model), sheet_id@, axis, op) {
            Outcome::Refused(r) => res matches Err(e) && reports(e, r),
            Outcome::Unchanged => res matches Ok(ms) && ms@.len() == 0,
            Outcome::Changed(m) => false,
            Outcome::Edited(list) => res matches Ok(ms) && batch_views(ms@) == list,
        },
{
    let ghost v = model_view(*model);
    let n = match op {
        RemapOp::Insert(_, n) => n,
        RemapOp::Delete(_, n) => n,
    };
    if n == 0 {
        return Ok(Vec::new());
    }
    let k = match locate(model, sheet_id) {
        None => {
            return Err(SpreadsheetEngineError::MissingSheet(sheet_id.clone()));
        },
        Some(k) => k,
    };
    let sheet = &model.sheets[k];
    proof {
        assert(v[k as int] == sheet_view(model.sheets@[k as int]));
        crate::mutation::lemma_sheet_pos(v, k as int);
    }
    let lookup = rewrite_lookup(model);
    let after = match remap_sheet(sheet, axis, op, sheet.id.as_str(), &lookup) {
        Err(e) => {
            return Err(e);
        },
        Ok(s) => s,
    };
    let ghost lk = names_lookup(v);
    let ghost e = edit_change(v, k as int, axis, op);
    let mut out: Vec<SpreadsheetMutation> = Vec::new();
    if !same_sheet(sheet, &after) {
        let before = copy_sheet(sheet);
        out.push(SpreadsheetMutation::SheetChanged { sheet_id: sheet.id.clone(), index: k, before: Some(before), after: Some(after) });
    }
    proof {
        assert(batch_views(out@) =~= e);
        assert(foreign_changes(v, k as int, lk, axis, op, 0) =~= Seq::<MutationView>::empty());
        assert(batch_views(out@) =~= e + foreign_changes(v, k as int, lk, axis, op, 0));
    }
    let mut j: usize = 0;
    while j < model.sheets.len()
        invariant
            j <= model.sheets@.len(),
            k < model.sheets@.len(),
            v == model_view(*model),
            model_wf(v),
            lookup.keys_unique(),
            lookup.view() == lk,
            lk == names_lookup(v),
            e == edit_change(v, k as int, axis, op),
            batch_views(out@) == e + foreign_changes(v, k as int, lk, axis, op, j as int),
        decreases model.sheets@.len() - j,
    {
        let ghost before_out = out@;
        if j != k {
            let current = &model.sheets[j];
            let rewritten = rewrite_sheet(current, model.sheets[k].id.as_str(), &lookup, axis, op);
            proof {
                assert(v[j as int] == sheet_view(*current));
                assert(v[k as int] == sheet_view(model.sheets@[k as int]));
                assert(sheet_view(rewritten) == foreign_sheet(v, k as int, j as int, lk, axis, op));
            }
            if !same_sheet(current, &rewritten) {
                let before = copy_sheet(current);
                out.push(
                    SpreadsheetMutation::SheetChanged { sheet_id: current.id.clone(), index: j, before: Some(before), after: Some(rewritten) },
                );
                proof {
                    assert(batch_views(out@) =~= batch_views(before_out).push(out@.last()@));
                }
            }
        }
        proof {
            assert(batch_views(out@) =~= e + foreign_changes(v, k as int, lk, axis, op, j + 1));
        }
        j += 1;
    }
    proof {
        assert(v.len() == model.sheets@.len());
    }
    Ok(out)
}

/// The cells a merge of `range` keeps, in order.
fn merge_kept_cells(cells: &Vec<CellModel>, range: GridRange) -> (res: Vec<CellModel>)
    ensures
        cells_view(res@) == cells_view(cells@).filter(kept_by_merge(range)),
{
    let ghost all = cells_view(cells@);
    let mut out: Vec<CellModel> = Vec::new();
    let mut j: usize = 0;
    proof {
        reveal(Seq::filter);
        assert(cells_view(out@) =~= all.subrange(0, 0).filter(kept_by_merge(range)));
    }
    while j < cells.len()
        invariant
            all == cells_view(cells@),
            j <= cells@.len(),
            cells_view(out@) == all.subrange(0, j as int).filter(kept_by_merge(range)),
        decreases cells@.len() - j,
    {
        let ghost before = out@;
        proof {
            assert(all.subrange(0, j + 1) =~= all.subrange(0, j as int).push(all[j as int]));
            all.subrange(0, j as int).lemma_filter_push(all[j as int], kept_by_merge(range));
        }
        let c = &cells[j];
        if !crate::grid::inside_range(c.row, c.column, range) || (c.row == range.start_row && c.column == range.start_column) {
            out.push(copy_cell(c));
            proof {
                assert(cells_view(out@) =~= cells_view(before).push(all[j as int]));
            }
        }
        j += 1;
    }
    proof {
        assert(all.subrange(0, j as int) =~= all);
    }
    out
}

fn range_key_lt_exec(a: GridRange, b: GridRange) -> (res: bool)
    ensures
        res == range_key_lt(a, b),
{
    a.start_row < b.start_row || (a.start_row == b.start_row && (a.start_column < b.start_column || (a.start_column
        == b.start_column && (a.end_row < b.end_row || (a.end_row == b.end_row && a.end_column < b.end_column)))))
}

proof fn lemma_insert_range(rs: Seq<GridRange>, x: GridRange, k: int)
    requires
        0 <= k <= rs.len(),
        forall|j: int| 0 <= j < k ==> !range_key_lt(x, #[trigger] rs[j]),
        k == rs.len() || range_key_lt(x, rs[k]),
    ensures
        insert_range(rs, x) == rs.insert(k, x),
    decreases k,
{
    if k == 0 {
        if rs.len() == 0 {
            assert(rs.insert(0, x) =~= seq![x]);
        } else {
            assert(rs.insert(0, x) =~= seq![x] + rs);
        }
    } else {
        assert forall|j: int| 0 <= j < k - 1 implies !range_key_lt(x, #[trigger] rs.drop_first()[j]) by {
            assert(rs.drop_first()[j] == rs[j + 1]);
        }
        lemma_insert_range(rs.drop_first(), x, k - 1);
        assert(!range_key_lt(x, rs[0]));
        assert(seq![rs[0]] + rs.drop_first().insert(k - 1, x) =~= rs.insert(k, x));
    }
}

fn insert_range_exec(list: &mut Vec<GridRange>, x: GridRange)
    ensures
        final(list)@ == insert_range(old(list)@, x),
{
    let mut k: usize = 0;
    while k < list.len() && !range_key_lt_exec(x, list[k])
        invariant
            k <= list@.len(),
            forall|j: int| 0 <= j < k ==> !range_key_lt(x, #[trigger] list@[j]),
        decreases list@.len() - k,
    {
        k += 1;
    }
    proof {
        lemma_insert_range(list@, x, k as int);
    }
    list.insert(k, x);
}

/// The regions with `x` added, stably sorted.
fn sorted_with(rs: &Vec<GridRange>, x: GridRange) -> (res: Vec<GridRange>)
    ensures
        res@ == sort_ranges(rs@.push(x)),
{
    let mut out: Vec<GridRange> = Vec::new();
    let mut k: usize = 0;
    while k < rs.len()
        invariant
            k <= rs@.len(),
            out@ == sort_ranges(rs@.take(k as int)),
        decreases rs@.len() - k,
    {
        proof {
            assert(rs@.take(k + 1).drop_last() =~= rs@.take(k as int));
        }
        insert_range_exec(&mut out, rs[k]);
        k += 1;
    }
    proof {
        assert(rs@.take(rs@.len() as int) =~= rs@);
        assert(rs@.push(x).drop_last() =~= rs@);
    }
    insert_range_exec(&mut out, x);
    out
}

/// Whether two lists of regions are equal.
fn same_ranges(a: &Vec<GridRange>, b: &Vec<GridRange>) -> (res: bool)
    ensures
        res == (a@ == b@),
{
    if a.len() != b.len() {
        return false;
    }
    let mut k: usize = 0;
    while k < a.len()
        invariant
            k <= a@.len(),
            a@.len() == b@.len(),
            forall|j: int| 0 <= j < k ==> a@[j] == b@[j],
        decreases a@.len() - k,
    {
        let x = a[k];
        let y = b[k];
        if !(x.start_row == y.start_row && x.end_row == y.end_row && x.start_column == y.start_column && x.end_column
            == y.end_column) {
            return false;
        }
        k += 1;
    }
    proof {
        assert(a@ =~= b@);
    }
    true
}

/// Whether a region shares a cell with any of the merged ones.
fn meets_any(rs: &Vec<GridRange>, range: GridRange) -> (res: bool)
    ensures
        res == exists|k: int| 0 <= k < rs@.len() && ranges_meet(#[trigger] rs@[k], range),
{
    let mut k: usize = 0;
    while k < rs.len()
        invariant
            k <= rs@.len(),
            forall|j: int| 0 <= j < k ==> !ranges_meet(#[trigger] rs@[j], range),
        decreases rs@.len() - k,
    {
        if crate::grid::ranges_overlap(rs[k], range) {
            proof {
                assert(ranges_meet(rs@[k as int], range));
            }
            return true;
        }
        k += 1;
    }
    false
}

proof fn lemma_merge_prefix(rs: Seq<GridRange>, n: int, r: GridRange)
    requires
        0 <= n <= rs.len(),
        merge_pos(rs.take(n), r) >= 0,
    ensures
        merge_pos(rs, r) == merge_pos(rs.take(n), r),
    decreases rs.len(),
{
    if rs.len() > n {
        assert(rs.drop_last().take(n) =~= rs.take(n));
        lemma_merge_prefix(rs.drop_last(), n, r);
    } else {
        assert(rs.take(n) =~= rs);
    }
}

proof fn lemma_merge_pos_bound(rs: Seq<GridRange>, r: GridRange)
    ensures
        -1 <= merge_pos(rs, r) < rs.len(),
    decreases rs.len(),
{
    if rs.len() > 0 {
        lemma_merge_pos_bound(rs.drop_last(), r);
    }
}

/// The index of the first merged region equal to `range`.
fn find_merge(rs: &Vec<GridRange>, range: GridRange) -> (res: Option<usize>)
    ensures
        match res {
            Some(p) => p as int == merge_pos(rs@, range),
            None => merge_pos(rs@, range) == -1,
        },
{
    let mut k: usize = 0;
    while k < rs.len()
        invariant
            k <= rs@.len(),
            merge_pos(rs@.take(k as int), range) == -1,
        decreases rs@.len() - k,
    {
        proof {
            assert(rs@.take(k + 1).drop_last() =~= rs@.take(k as int));
        }
        let e = rs[k];
        if e.start_row == range.start_row && e.end_row == range.end_row && e.start_column == range.start_column
            && e.end_column == range.end_column {
            proof {
                assert(e == range);
                lemma_merge_prefix(rs@, k + 1, range);
            }
            return Some(k);
        }
        k += 1;
    }
    proof {
        assert(rs@.take(rs@.len() as int) =~= rs@);
    }
    None
}

/// The position of the sheet with id `id`, as `sheet_pos` finds it.
fn locate(model: &SpreadsheetModel, id: &String) -> (res: Option<usize>)
    requires
        model_wf(model_view(*model)),
    ensures
        match res {
            Some(k) => k < model.sheets@.len() && sheet_pos(model_view(*model), id@) == k,
            None => sheet_pos(model_view(*model), id@) == -1,
        },
{
    let ghost v = model_view(*model);
    let found = find_sheet(model, id);
    proof {
        match found {
            Some(k) => {
                assert(v[k as int].0 == model.sheets@[k as int].id@);
                lemma_sheet_pos(v, k as int);
            },
            None => {
                assert forall|j: int| 0 <= j < v.len() implies (#[trigger] v[j]).0 != id@ by {
                    assert(v[j].0 == model.sheets@[j].id@);
                }
                lemma_sheet_pos_none(v, id@);
            },
        }
    }
    found
}

/// A copy of the cell the workbook holds at an address.
fn present(model: &SpreadsheetModel, sheet_id: &String, row: u32, column: u32) -> (res: Option<CellModel>)
    requires
        model_wf(model_view(*model)),
    ensures
        opt_cell_view(res) == present_cell(model_view(*model), sheet_id@, row, column),
{
    let ghost v = model_view(*model);
    match locate(model, sheet_id) {
        None => None,
        Some(k) => {
            let cells = &model.sheets[k].cells;
            let ghost w = cells_view(cells@);
            proof {
                assert(v[k as int] == sheet_view(model.sheets@[k as int]));
                assert(sorted_cells(w));
            }
            match find_cell_in(cells, row, column) {
                Some(j) => {
                    proof {
                        assert(w[j as int].0 == row && w[j as int].1 == column);
                        let c = choose|q: int| 0 <= q < w.len() && w[q].0 == row && w[q].1 == column;
                        if c < j {
                            assert(pos_before(w[c], w[j as int]));
                        } else if j < c {
                            assert(pos_before(w[j as int], w[c]));
                        }
                    }
                    Some(copy_cell(&cells[j]))
                },
                None => {
                    proof {
                        assert forall|q: int| 0 <= q < w.len() implies !(w[q].0 == row && w[q].1 == column) by {
                            assert(w[q] == cell_view(cells@[q]));
                        }
                    }
                    None
                },
            }
        },
    }
}

/// Whether the text is empty or whitespace.
pub(crate) fn is_blank(s: &String) -> (res: bool)
    ensures
        res == (trim(s@).len() == 0),
{
    trim_chars(&chars_of(s.as_str())).len() == 0
}

/// The cell a write leaves.
pub(crate) fn normalize_cell(
    row: u32,
    column: u32,
    value: &Option<CellValue>,
    formula: &Option<String>,
    attrs: &Vec<(String, String)>,
    style: Option<String>,
) -> (res: Option<CellModel>)
    ensures
        opt_cell_view(res) == normalized(row, column, opt_value_view(*value), text_view(*formula), attrs_view(attrs@), text_view(style)),
{
    let f = match formula {
        Some(t) => if is_blank(t) { None } else { Some(t.clone()) },
        None => None,
    };
    if value.is_none() && f.is_none() && attrs.len() == 0 && style.is_none() {
        proof {
            assert(attrs_view(attrs@).len() == 0);
        }
        None
    } else {
        proof {
            assert(attrs.len() == 0 ==> attrs_view(attrs@).len() == 0);
            assert(attrs_view(attrs@).len() == attrs@.len());
        }
        Some(CellModel { row, column, value: copy_opt_value(value), formula: f, attrs: copy_attrs(attrs), style })
    }
}

fn same_opt_cell(a: &Option<CellModel>, b: &Option<CellModel>) -> (res: bool)
    ensures
        res == (opt_cell_view(*a) == opt_cell_view(*b)),
{
    match (a, b) {
        (Some(x), Some(y)) => same_cell(x, y),
        (None, None) => true,
        _ => false,
    }
}

fn same_cells(a: &Vec<CellModel>, b: &Vec<CellModel>) -> (res: bool)
    ensures
        res == (cells_view(a@) == cells_view(b@)),
{
    if a.len() != b.len() {
        proof {
            assert(cells_view(a@).len() != cells_view(b@).len());
        }
        return false;
    }
    let mut k: usize = 0;
    while k < a.len()
        invariant
            a@.len() == b@.len(),
            k <= a@.len(),
            forall|j: int| 0 <= j < k ==> cells_view(a@)[j] == cells_view(b@)[j],
        decreases a@.len() - k,
    {
        if !same_cell(&a[k], &b[k]) {
            proof {
                assert(cells_view(a@)[k as int] != cells_view(b@)[k as int]);
            }
            return false;
        }
        k += 1;
    }
    proof {
        assert(cells_view(a@) =~= cells_view(b@));
    }
    true
}

/// The cells of a range after clearing it.
fn clear_cells(before: &Vec<CellModel>, mode: ClearRangeMode) -> (res: Vec<CellModel>)
    ensures
        cells_view(res@) == cleared(cells_view(before@), mode),
{
    let ghost w = cells_view(before@);
    let mut out: Vec<CellModel> = Vec::new();
    let mut k: usize = 0;
    proof {
        assert(w.take(0).len() == 0);
        assert(cells_view(out@) =~= cleared(w.take(0), mode));
    }
    while k < before.len()
        invariant
            w == cells_view(before@),
            k <= before@.len(),
            cells_view(out@) == cleared(w.take(k as int), mode),
        decreases before@.len() - k,
    {
        let c = &before[k];
        let ghost prev = out@;
        proof {
            assert(w.take(k + 1).drop_last() =~= w.take(k as int));
            assert(w.take(k + 1).last() == cell_view(*c));
        }
        match mode {
            ClearRangeMode::All => {},
            ClearRangeMode::Contents => {
                if c.style.is_some() {
                    out.push(CellModel {
                        row: c.row,
                        column: c.column,
                        value: None,
                        formula: None,
                        attrs: copy_attrs(&c.attrs),
                        style: copy_text(&c.style),
                    });
                    proof {
                        assert(cells_view(out@) =~= cells_view(prev).push(without_contents(cell_view(*c))));
                    }
                }
            },
            ClearRangeMode::Formats => {
                if c.value.is_some() || c.formula.is_some() || c.attrs.len() > 0 {
                    out.push(CellModel {
                        row: c.row,
                        column: c.column,
                        value: copy_opt_value(&c.value),
                        formula: copy_text(&c.formula),
                        attrs: copy_attrs(&c.attrs),
                        style: None,
                    });
                    proof {
                        assert(cells_view(out@) =~= cells_view(prev).push(without_style(cell_view(*c))));
                    }
                } else {
                    proof {
                        assert(attrs_view(c.attrs@).len() == c.attrs@.len());
                    }
                }
            },
        }
        k += 1;
    }
    proof {
        assert(w.take(w.len() as int) =~= w);
    }
    out
}

/// The mutation that carries out the command on the present workbook,
/// `None` when the command would change nothing, or why it is refused.
#[verifier::rlimit(50)]
/// Whether a command inserts or deletes rows or columns.
pub open spec fn moves_cells(c: CommandView) -> bool {
    c is InsertRows || c is DeleteRows || c is InsertColumns || c is DeleteColumns
}

/// The mutations that carry out a command on the present workbook, to be
/// applied in turn: none when it would change nothing; or its refusal.
pub fn command_mutation(model: &SpreadsheetModel, command: &SpreadsheetCommand) -> (res: Result<
    Vec<SpreadsheetMutation>,
    SpreadsheetEngineError,
>)
    requires
        model_wf(model_view(*model)),
    ensures
        match spec_command(model_view(*model), command@) {
            Outcome::Refused(r) => res matches Err(e) && reports(e, r),
            Outcome::Unchanged => res matches Ok(ms) && ms@.len() == 0,
            Outcome::Changed(m) => res matches Ok(ms) && batch_views(ms@) == seq![m],
            Outcome::Edited(list) => res matches Ok(ms) && batch_views(ms@) == list,
        },
{
    match command {
        SpreadsheetCommand::InsertRows { sheet_id, at, count } => structural_mutations(model, sheet_id, SheetAxis::Row, RemapOp::Insert(*at, *count)),
        SpreadsheetCommand::DeleteRows { sheet_id, at, count } => structural_mutations(model, sheet_id, SheetAxis::Row, RemapOp::Delete(*at, *count)),
        SpreadsheetCommand::InsertColumns { sheet_id, at, count } =>
            structural_mutations(model, sheet_id, SheetAxis::Column, RemapOp::Insert(*at, *count)),
        SpreadsheetCommand::DeleteColumns { sheet_id, at, count } =>
            structural_mutations(model, sheet_id, SheetAxis::Column, RemapOp::Delete(*at, *count)),
        _ => match single_mutation(model, command) {
            Err(e) => Err(e),
            Ok(None) => Ok(Vec::new()),
            Ok(Some(m)) => {
                let ms = vec![m];
                proof {
                    assert(batch_views(ms@) =~= seq![ms@[0]@]);
                }
                Ok(ms)
            },
        },
    }
}

/// The one mutation that carries out a command other than a row or column
/// edit, or nothing, or its refusal.
fn single_mutation(model: &SpreadsheetModel, command: &SpreadsheetCommand) -> (res: Result<
    Option<SpreadsheetMutation>,
    SpreadsheetEngineError,
>)
    requires
        model_wf(model_view(*model)),
        !moves_cells(command@),
    ensures
        match spec_command(model_view(*model), command@) {
            Outcome::Refused(r) => res matches Err(e) && reports(e, r),
            Outcome::Unchanged => res matches Ok(None),
            Outcome::Changed(m) => res matches Ok(Some(x)) && x@ == m,
            Outcome::Edited(_) => false,
        },
{
    let ghost v = model_view(*model);
    match command {
        SpreadsheetCommand::PasteRange { sheet_id, start_row, start_column, row_count, column_count, cells, mode, source_origin } =>
            paste_mutation(model, sheet_id, *start_row, *start_column, *row_count, *column_count, cells, *mode, *source_origin),
        SpreadsheetCommand::FillRange { source_sheet_id, source_range, destination_sheet_id, destination_range, mode } =>
            fill_mutation(model, source_sheet_id, *source_range, destination_sheet_id, *destination_range, *mode),
        SpreadsheetCommand::InsertRows { .. } | SpreadsheetCommand::DeleteRows { .. } | SpreadsheetCommand::InsertColumns {
            ..
        } | SpreadsheetCommand::DeleteColumns { .. } => Ok(None),
        SpreadsheetCommand::CreateSheet { id, name } => {
            if is_blank(id) || is_blank(name) {
                return Err(SpreadsheetEngineError::EmptySheetIdentity);
            }
            if locate(model, id).is_some() {
                return Err(SpreadsheetEngineError::DuplicateSheet(id.clone()));
            }
            let sheet = SheetModel {
                id: id.clone(),
                name: name.clone(),
                cells: Vec::new(),
                metadata: SheetMetadata { freeze: FreezePane { rows: 0, columns: 0 }, row_count: None, column_count: None },
                merged_ranges: Vec::new(),
            };
            proof {
                assert(cells_view(sheet.cells@) =~= Seq::<CellView>::empty());
                assert(model.sheets@.len() == v.len());
            }
            Ok(Some(SpreadsheetMutation::SheetChanged { sheet_id: id.clone(), index: model.sheets.len(), before: None, after: Some(sheet) }))
        },
        SpreadsheetCommand::RenameSheet { sheet_id, name } => {
            if is_blank(name) {
                return Err(SpreadsheetEngineError::EmptySheetIdentity);
            }
            match locate(model, sheet_id) {
                None => Err(SpreadsheetEngineError::MissingSheet(sheet_id.clone())),
                Some(k) => {
                    let before = copy_sheet(&model.sheets[k]);
                    let after = SheetModel {
                        id: model.sheets[k].id.clone(),
                        name: name.clone(),
                        cells: copy_cells(&model.sheets[k].cells),
                        metadata: model.sheets[k].metadata,
                        merged_ranges: crate::dependency::copy_ranges(&model.sheets[k].merged_ranges),
                    };
                    proof {
                        assert(v[k as int] == sheet_view(model.sheets@[k as int]));
                    }
                    Ok(Some(SpreadsheetMutation::SheetChanged { sheet_id: sheet_id.clone(), index: k, before: Some(before), after: Some(after) }))
                },
            }
        },
        SpreadsheetCommand::DeleteSheet { sheet_id } => match locate(model, sheet_id) {
            None => Err(SpreadsheetEngineError::MissingSheet(sheet_id.clone())),
            Some(k) => {
                let before = copy_sheet(&model.sheets[k]);
                proof {
                    assert(v[k as int] == sheet_view(model.sheets@[k as int]));
                }
                Ok(Some(SpreadsheetMutation::SheetChanged { sheet_id: sheet_id.clone(), index: k, before: Some(before), after: None }))
            },
        },
        SpreadsheetCommand::SetCell { sheet_id, row, column, value, formula, attrs } => {
            let before = present(model, sheet_id, *row, *column);
            let style = match &before {
                Some(c) => copy_text(&c.style),
                None => None,
            };
            let after = normalize_cell(*row, *column, value, formula, attrs, style);
            if same_opt_cell(&before, &after) {
                return Ok(None);
            }
            if locate(model, sheet_id).is_none() {
                return Err(SpreadsheetEngineError::MissingSheet(sheet_id.clone()));
            }
            let address = CellAddress { sheet_id: sheet_id.clone(), row: *row, column: *column };
            Ok(Some(SpreadsheetMutation::CellChanged { address, before, after }))
        },
        SpreadsheetCommand::SetCellStyle { sheet_id, row, column, style } => {
            let before = present(model, sheet_id, *row, *column);
            let unchanged = match &before {
                Some(c) => match (&c.style, style) {
                    (Some(a), Some(b)) => crate::text::same_text(a.as_str(), b.as_str()),
                    (None, None) => true,
                    _ => false,
                },
                None => false,
            };
            if unchanged {
                return Ok(None);
            }
            if locate(model, sheet_id).is_none() {
                return Err(SpreadsheetEngineError::MissingSheet(sheet_id.clone()));
            }
            let after = match &before {
                Some(c) => CellModel {
                    row: c.row,
                    column: c.column,
                    value: copy_opt_value(&c.value),
                    formula: copy_text(&c.formula),
                    attrs: copy_attrs(&c.attrs),
                    style: copy_text(style),
                },
                None => {
                    let empty: Vec<(String, String)> = Vec::new();
                    proof {
                        assert(attrs_view(empty@) =~= Seq::<(Seq<char>, Seq<char>)>::empty());
                    }
                    CellModel { row: *row, column: *column, value: None, formula: None, attrs: empty, style: copy_text(style) }
                },
            };
            let address = CellAddress { sheet_id: sheet_id.clone(), row: *row, column: *column };
            Ok(Some(SpreadsheetMutation::CellChanged { address, before, after: Some(after) }))
        },
        SpreadsheetCommand::ClearCell { sheet_id, row, column } => {
            let before = present(model, sheet_id, *row, *column);
            if before.is_none() {
                return Ok(None);
            }
            let address = CellAddress { sheet_id: sheet_id.clone(), row: *row, column: *column };
            Ok(Some(SpreadsheetMutation::CellChanged { address, before, after: None }))
        },
        SpreadsheetCommand::SetFreezePane { sheet_id, rows, columns } => match locate(model, sheet_id) {
            None => Err(SpreadsheetEngineError::MissingSheet(sheet_id.clone())),
            Some(k) => {
                let md = model.sheets[k].metadata;
                proof {
                    assert(v[k as int].3 == md);
                }
                if let Some(n) = md.row_count {
                    if *rows > n {
                        return Err(SpreadsheetEngineError::InvalidMutation(String::from_str(FREEZE_ROWS_EXCEED)));
                    }
                }
                if let Some(n) = md.column_count {
                    if *columns > n {
                        return Err(SpreadsheetEngineError::InvalidMutation(String::from_str(FREEZE_COLUMNS_EXCEED)));
                    }
                }
                if md.freeze.rows == *rows && md.freeze.columns == *columns {
                    return Ok(None);
                }
                Ok(Some(SpreadsheetMutation::PaneChanged {
                    sheet_id: sheet_id.clone(),
                    before: md.freeze,
                    after: FreezePane { rows: *rows, columns: *columns },
                }))
            },
        },
        SpreadsheetCommand::SetRowDimensions { sheet_id, rows } => match locate(model, sheet_id) {
            None => Err(SpreadsheetEngineError::MissingSheet(sheet_id.clone())),
            Some(k) => {
                let md = model.sheets[k].metadata;
                proof {
                    assert(v[k as int].3 == md);
                }
                if let Some(n) = rows {
                    if md.freeze.rows > *n {
                        return Err(SpreadsheetEngineError::InvalidMutation(String::from_str(ROWS_BELOW_FREEZE)));
                    }
                }
                let same = match (md.row_count, *rows) {
                    (Some(a), Some(b)) => a == b,
                    (None, None) => true,
                    _ => false,
                };
                if same {
                    return Ok(None);
                }
                Ok(Some(SpreadsheetMutation::RowDimensionsChanged { sheet_id: sheet_id.clone(), before: md.row_count, after: *rows }))
            },
        },
        SpreadsheetCommand::SetColumnDimensions { sheet_id, columns } => match locate(model, sheet_id) {
            None => Err(SpreadsheetEngineError::MissingSheet(sheet_id.clone())),
            Some(k) => {
                let md = model.sheets[k].metadata;
                proof {
                    assert(v[k as int].3 == md);
                }
                if let Some(n) = columns {
                    if md.freeze.columns > *n {
                        return Err(SpreadsheetEngineError::InvalidMutation(String::from_str(COLUMNS_BELOW_FREEZE)));
                    }
                }
                let same = match (md.column_count, *columns) {
                    (Some(a), Some(b)) => a == b,
                    (None, None) => true,
                    _ => false,
                };
                if same {
                    return Ok(None);
                }
                Ok(Some(SpreadsheetMutation::ColumnDimensionsChanged {
                    sheet_id: sheet_id.clone(),
                    before: md.column_count,
                    after: *columns,
                }))
            },
        },
        SpreadsheetCommand::ClearRange { sheet_id, range, mode } => {
            if range.start_row > range.end_row || range.start_column > range.end_column {
                return Err(SpreadsheetEngineError::InvalidMutation(String::from_str(CLEAR_RANGE_REVERSED)));
            }
            match locate(model, sheet_id) {
                None => Err(SpreadsheetEngineError::MissingSheet(sheet_id.clone())),
                Some(k) => {
                    let before = range_cells(&model.sheets[k], *range);
                    let after = clear_cells(&before, *mode);
                    proof {
                        assert(v[k as int] == sheet_view(model.sheets@[k as int]));
                    }
                    if same_cells(&before, &after) {
                        return Ok(None);
                    }
                    Ok(Some(SpreadsheetMutation::RangeChanged { sheet_id: sheet_id.clone(), range: *range, before, after }))
                },
            }
        },
        SpreadsheetCommand::MergeCells { sheet_id, range } => {
            if range.start_row > range.end_row || range.start_column > range.end_column {
                return Err(SpreadsheetEngineError::InvalidMutation(String::from_str(MERGE_RANGE_REVERSED)));
            }
            match locate(model, sheet_id) {
                None => Err(SpreadsheetEngineError::MissingSheet(sheet_id.clone())),
                Some(k) => {
                    let sheet = &model.sheets[k];
                    proof {
                        assert(v[k as int] == sheet_view(model.sheets@[k as int]));
                    }
                    if meets_any(&sheet.merged_ranges, *range) {
                        return Err(SpreadsheetEngineError::MergeOverlap);
                    }
                    let before = copy_sheet(sheet);
                    let after = SheetModel {
                        id: sheet.id.clone(),
                        name: sheet.name.clone(),
                        cells: merge_kept_cells(&sheet.cells, *range),
                        metadata: sheet.metadata,
                        merged_ranges: sorted_with(&sheet.merged_ranges, *range),
                    };
                    Ok(Some(SpreadsheetMutation::SheetChanged { sheet_id: sheet_id.clone(), index: k, before: Some(before), after: Some(after) }))
                },
            }
        },
        SpreadsheetCommand::SetSheetMetadata { sheet_id, metadata, merged_ranges } => {
            match locate(model, sheet_id) {
                None => Err(SpreadsheetEngineError::MissingSheet(sheet_id.clone())),
                Some(k) => {
                    let sheet = &model.sheets[k];
                    proof {
                        assert(v[k as int] == sheet_view(model.sheets@[k as int]));
                    }
                    let md = sheet.metadata;
                    if md.freeze.rows == metadata.freeze.rows && md.freeze.columns == metadata.freeze.columns
                        && md.row_count == metadata.row_count && md.column_count == metadata.column_count
                        && same_ranges(&sheet.merged_ranges, merged_ranges) {
                        return Ok(None);
                    }
                    let before = copy_sheet(sheet);
                    let after = SheetModel {
                        id: sheet.id.clone(),
                        name: sheet.name.clone(),
                        cells: copy_cells(&sheet.cells),
                        metadata: *metadata,
                        merged_ranges: crate::dependency::copy_ranges(merged_ranges),
                    };
                    Ok(Some(SpreadsheetMutation::SheetChanged { sheet_id: sheet_id.clone(), index: k, before: Some(before), after: Some(after) }))
                },
            }
        },
        SpreadsheetCommand::UnmergeCells { sheet_id, range } => {
            match locate(model, sheet_id) {
                None => Err(SpreadsheetEngineError::MissingSheet(sheet_id.clone())),
                Some(k) => {
                    let sheet = &model.sheets[k];
                    proof {
                        assert(v[k as int] == sheet_view(model.sheets@[k as int]));
                        lemma_merge_pos_bound(sheet.merged_ranges@, *range);
                    }
                    match find_merge(&sheet.merged_ranges, *range) {
                        None => Err(SpreadsheetEngineError::MergeUnknown),
                        Some(p) => {
                            let before = copy_sheet(sheet);
                            let mut ranges = crate::dependency::copy_ranges(&sheet.merged_ranges);
                            ranges.remove(p);
                            let after = SheetModel {
                                id: sheet.id.clone(),
                                name: sheet.name.clone(),
                                cells: copy_cells(&sheet.cells),
                                metadata: sheet.metadata,
                                merged_ranges: ranges,
                            };
                            Ok(Some(SpreadsheetMutation::SheetChanged { sheet_id: sheet_id.clone(), index: k, before: Some(before), after: Some(after) }))
                        },
                    }
                },
            }
        },
    }
}

proof fn lemma_insert_range_set(rs: Seq<GridRange>, x: GridRange)
    ensures
        insert_range(rs, x).to_set() == rs.to_set().insert(x),
    decreases rs.len(),
{
    if rs.len() == 0 {
        assert(seq![x].to_set() =~= Set::<GridRange>::empty().insert(x)) by {
            assert(seq![x][0] == x);
        }
        assert(rs.to_set() =~= Set::<GridRange>::empty());
    } else if range_key_lt(x, rs[0]) {
        assert forall|y: GridRange| (seq![x] + rs).to_set().contains(y) <==> rs.to_set().insert(x).contains(y) by {
            if (seq![x] + rs).contains(y) {
                let i = choose|i: int| 0 <= i < (seq![x] + rs).len() && (seq![x] + rs)[i] == y;
                if i > 0 {
                    assert(rs[i - 1] == y);
                }
            }
            if rs.contains(y) {
                let i = choose|i: int| 0 <= i < rs.len() && rs[i] == y;
                assert((seq![x] + rs)[i + 1] == y);
            }
            if y == x {
                assert((seq![x] + rs)[0] == y);
            }
        }
        assert((seq![x] + rs).to_set() =~= rs.to_set().insert(x));
    } else {
        let t = rs.drop_first();
        lemma_insert_range_set(t, x);
        let r = seq![rs[0]] + insert_range(t, x);
        assert forall|y: GridRange| r.to_set().contains(y) <==> rs.to_set().insert(x).contains(y) by {
            if r.contains(y) {
                let i = choose|i: int| 0 <= i < r.len() && r[i] == y;
                if i == 0 {
                    assert(rs[0] == y);
                } else {
                    assert(insert_range(t, x).contains(y));
                    assert(insert_range(t, x).to_set().contains(y));
                    if y != x {
                        assert(t.to_set().contains(y));
                        let j = choose|j: int| 0 <= j < t.len() && t[j] == y;
                        assert(rs[j + 1] == y);
                    }
                }
            }
            if rs.contains(y) {
                let i = choose|i: int| 0 <= i < rs.len() && rs[i] == y;
                if i == 0 {
                    assert(r[0] == y);
                } else {
                    assert(t[i - 1] == y);
                    assert(t.to_set().contains(y));
                    assert(insert_range(t, x).to_set().contains(y));
                    let j = choose|j: int| 0 <= j < insert_range(t, x).len() && insert_range(t, x)[j] == y;
                    assert(r[j + 1] == y);
                }
            }
            if y == x {
                assert(insert_range(t, x).to_set().contains(x));
                let j = choose|j: int| 0 <= j < insert_range(t, x).len() && insert_range(t, x)[j] == x;
                assert(r[j + 1] == y);
            }
        }
        assert(r.to_set() =~= rs.to_set().insert(x));
    }
}

proof fn lemma_sort_ranges_set(rs: Seq<GridRange>)
    ensures
        sort_ranges(rs).to_set() == rs.to_set(),
    decreases rs.len(),
{
    if rs.len() == 0 {
        assert(sort_ranges(rs).to_set() =~= rs.to_set());
    } else {
        lemma_sort_ranges_set(rs.drop_last());
        lemma_insert_range_set(sort_ranges(rs.drop_last()), rs.last());
        assert(rs.drop_last().push(rs.last()) =~= rs);
        assert forall|y: GridRange| rs.to_set().contains(y) <==> rs.drop_last().to_set().insert(rs.last()).contains(y) by {
            if rs.contains(y) {
                let i = choose|i: int| 0 <= i < rs.len() && rs[i] == y;
                if i < rs.len() - 1 {
                    assert(rs.drop_last()[i] == y);
                }
            }
            if rs.drop_last().contains(y) {
                let i = choose|i: int| 0 <= i < rs.drop_last().len() && rs.drop_last()[i] == y;
                assert(rs[i] == y);
            }
        }
        assert(rs.to_set() =~= rs.drop_last().to_set().insert(rs.last()));
    }
}

/// Merging cells keeps the region's top-left cell and every cell outside
/// the region, drops the region's other cells, and adds the region to the
/// merged ones, which it meets none of; a region that meets a merged one is
/// refused.
pub proof fn law_merge_keeps_anchor(v: Seq<SheetView>, sheet_id: Seq<char>, range: GridRange)
    ensures
        spec_command(v, CommandView::MergeCells { sheet_id, range }) matches Outcome::Changed(
            MutationView::SheetChanged { before: Some(b), after: Some(a), .. },
        ) ==> {
            &&& forall|x: CellView| #[trigger] a.2.to_set().contains(x) <==> b.2.to_set().contains(x) && (!range.spec_contains(
                x.0 as int,
                x.1 as int,
            ) || (x.0 == range.start_row && x.1 == range.start_column))
            &&& a.4.to_set() == b.4.to_set().insert(range)
            &&& forall|k: int| 0 <= k < b.4.len() ==> !ranges_meet(#[trigger] b.4[k], range)
        },
        (sheet_pos(v, sheet_id) >= 0 && range.start_row <= range.end_row && range.start_column <= range.end_column
            && exists|k: int| 0 <= k < v[sheet_pos(v, sheet_id)].4.len() && ranges_meet(
            #[trigger] v[sheet_pos(v, sheet_id)].4[k],
            range,
        )) ==> spec_command(v, CommandView::MergeCells { sheet_id, range }) == Outcome::Refused(Refusal::MergeOverlap),
{
    let i = sheet_pos(v, sheet_id);
    if i >= 0 && !(range.start_row > range.end_row || range.start_column > range.end_column) {
        let cells = v[i].2;
        assert forall|x: CellView| #[trigger] cells.filter(kept_by_merge(range)).to_set().contains(x) <==> cells.to_set().contains(x)
            && kept_by_merge(range)(x) by {
            if cells.filter(kept_by_merge(range)).contains(x) {
                let k = choose|k: int| 0 <= k < cells.filter(kept_by_merge(range)).len() && cells.filter(kept_by_merge(range))[k] == x;
                cells.lemma_filter_pred(kept_by_merge(range), k);
                cells.lemma_filter_contains_rev(kept_by_merge(range), x);
            }
            if cells.contains(x) && kept_by_merge(range)(x) {
                let k = choose|k: int| 0 <= k < cells.len() && cells[k] == x;
                cells.lemma_filter_contains(kept_by_merge(range), k);
            }
        }
        lemma_sort_ranges_set(v[i].4.push(range));
        assert forall|y: GridRange| v[i].4.push(range).to_set().contains(y) <==> v[i].4.to_set().insert(range).contains(y) by {
            let p = v[i].4.push(range);
            if p.contains(y) {
                let k = choose|k: int| 0 <= k < p.len() && p[k] == y;
                if k < v[i].4.len() {
                    assert(v[i].4[k] == y);
                }
            }
            if v[i].4.contains(y) {
                let k = choose|k: int| 0 <= k < v[i].4.len() && v[i].4[k] == y;
                assert(p[k] == y);
            }
            if y == range {
                assert(p[v[i].4.len() as int] == y);
            }
        }
        assert(v[i].4.push(range).to_set() =~= v[i].4.to_set().insert(range));
    }
}

} // verus!
