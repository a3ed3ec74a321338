use oo_spreadsheet::address::CellAddress;
use oo_spreadsheet::cells::CellValue;
use oo_spreadsheet::dependency::{CellModel, FreezePane, SheetModel, SpreadsheetModel};
use oo_spreadsheet::grid::GridRange;
use oo_spreadsheet::mutation::{apply_mutation, SpreadsheetMutation, SHEET_INDEX_OUT_OF_RANGE};
use oo_spreadsheet::sheet_edits::SpreadsheetEngineError;

fn cell(row: u32, column: u32, text: &str) -> CellModel {
    CellModel { row, column, value: Some(CellValue::Text(text.into())), ..CellModel::default() }
}

fn workbook() -> SpreadsheetModel {
    SpreadsheetModel {
        sheets: vec![SheetModel {
            id: "sheet-1".into(),
            name: "Sheet 1".into(),
            cells: vec![cell(0, 0, "a"), cell(1, 1, "b"), cell(3, 0, "c")],
            ..SheetModel::default()
        }],
    }
}

fn address(row: u32, column: u32) -> CellAddress {
    CellAddress { sheet_id: "sheet-1".into(), row, column }
}

#[test]
fn cell_change_inserts_in_order_and_its_inverse_restores() {
    let mut model = workbook();
    let original = model.clone();
    let mutation = SpreadsheetMutation::CellChanged { address: address(2, 5), before: None, after: Some(cell(2, 5, "new")) };
    apply_mutation(&mut model, &mutation).unwrap();
    let positions: Vec<(u32, u32)> = model.sheets[0].cells.iter().map(|c| (c.row, c.column)).collect();
    assert_eq!(positions, vec![(0, 0), (1, 1), (2, 5), (3, 0)]);
    apply_mutation(&mut model, &mutation.inverse()).unwrap();
    assert_eq!(model, original);
}

#[test]
fn cell_change_replaces_and_removes() {
    let mut model = workbook();
    let replace = SpreadsheetMutation::CellChanged { address: address(1, 1), before: Some(cell(1, 1, "b")), after: Some(cell(1, 1, "B")) };
    apply_mutation(&mut model, &replace).unwrap();
    assert_eq!(model.sheets[0].cells[1], cell(1, 1, "B"));
    let remove = SpreadsheetMutation::CellChanged { address: address(1, 1), before: Some(cell(1, 1, "B")), after: None };
    apply_mutation(&mut model, &remove).unwrap();
    assert_eq!(model.sheets[0].cells.len(), 2);
    apply_mutation(&mut model, &remove.inverse()).unwrap();
    apply_mutation(&mut model, &replace.inverse()).unwrap();
    assert_eq!(model, workbook());
}

#[test]
fn range_change_swaps_the_cells_of_the_range() {
    let mut model = workbook();
    let range = GridRange { start_row: 0, end_row: 1, start_column: 0, end_column: 3 };
    let mutation = SpreadsheetMutation::RangeChanged {
        sheet_id: "sheet-1".into(),
        range,
        before: vec![cell(0, 0, "a"), cell(1, 1, "b")],
        after: vec![cell(0, 2, "x"), cell(1, 0, "y")],
    };
    apply_mutation(&mut model, &mutation).unwrap();
    assert_eq!(model.sheets[0].cells, vec![cell(0, 2, "x"), cell(1, 0, "y"), cell(3, 0, "c")]);
    apply_mutation(&mut model, &mutation.inverse()).unwrap();
    assert_eq!(model, workbook());
}

#[test]
fn sheet_changes_insert_replace_and_delete() {
    let mut model = workbook();
    let extra = SheetModel { id: "sheet-2".into(), name: "Sheet 2".into(), ..SheetModel::default() };
    let create = SpreadsheetMutation::SheetChanged { sheet_id: "sheet-2".into(), index: 0, before: None, after: Some(extra.clone()) };
    apply_mutation(&mut model, &create).unwrap();
    assert_eq!(model.sheets[0].id, "sheet-2");
    assert_eq!(model.sheets.len(), 2);
    apply_mutation(&mut model, &create.inverse()).unwrap();
    assert_eq!(model, workbook());
    let third = SheetModel { id: "sheet-3".into(), ..extra.clone() };
    let too_far = SpreadsheetMutation::SheetChanged { sheet_id: "sheet-3".into(), index: 5, before: None, after: Some(third) };
    assert_eq!(
        apply_mutation(&mut model, &too_far),
        Err(SpreadsheetEngineError::InvalidMutation(SHEET_INDEX_OUT_OF_RANGE.into()))
    );
    assert_eq!(model, workbook());
}

#[test]
fn metadata_changes_and_missing_sheets() {
    let mut model = workbook();
    let pane = SpreadsheetMutation::PaneChanged {
        sheet_id: "sheet-1".into(),
        before: FreezePane::default(),
        after: FreezePane { rows: 2, columns: 1 },
    };
    apply_mutation(&mut model, &pane).unwrap();
    assert_eq!(model.sheets[0].metadata.freeze, FreezePane { rows: 2, columns: 1 });
    let rows = SpreadsheetMutation::RowDimensionsChanged { sheet_id: "sheet-1".into(), before: None, after: Some(40) };
    apply_mutation(&mut model, &rows).unwrap();
    assert_eq!(model.sheets[0].metadata.row_count, Some(40));
    apply_mutation(&mut model, &rows.inverse()).unwrap();
    apply_mutation(&mut model, &pane.inverse()).unwrap();
    assert_eq!(model, workbook());
    let missing = SpreadsheetMutation::ColumnDimensionsChanged { sheet_id: "nope".into(), before: None, after: Some(3) };
    assert_eq!(apply_mutation(&mut model, &missing), Err(SpreadsheetEngineError::MissingSheet("nope".into())));
}

#[test]
fn inverse_exchanges_before_and_after() {
    let upsert = SpreadsheetMutation::CellChanged { address: address(0, 0), before: Some(cell(0, 0, "a")), after: None };
    assert_eq!(
        upsert.inverse(),
        SpreadsheetMutation::CellChanged { address: address(0, 0), before: None, after: Some(cell(0, 0, "a")) }
    );
    assert_eq!(upsert.inverse().inverse(), upsert);
}

#[test]
fn unordered_workbooks_and_misplaced_contents_are_refused() {
    let mut unordered = workbook();
    unordered.sheets[0].cells.reverse();
    let before = unordered.clone();
    let write = SpreadsheetMutation::CellChanged {
        address: oo_spreadsheet::address::CellAddress { sheet_id: "sheet-1".into(), row: 9, column: 9 },
        before: None,
        after: Some(cell(9, 9, "z")),
    };
    assert_eq!(
        apply_mutation(&mut unordered, &write),
        Err(SpreadsheetEngineError::InvalidMutation(oo_spreadsheet::mutation::MODEL_NOT_CANONICAL.into()))
    );
    assert_eq!(unordered, before);
    let mut model = workbook();
    let misplaced = SpreadsheetMutation::CellChanged {
        address: oo_spreadsheet::address::CellAddress { sheet_id: "sheet-1".into(), row: 9, column: 9 },
        before: None,
        after: Some(cell(8, 9, "z")),
    };
    assert_eq!(
        apply_mutation(&mut model, &misplaced),
        Err(SpreadsheetEngineError::InvalidMutation(oo_spreadsheet::mutation::MUTATION_MALFORMED.into()))
    );
    assert_eq!(model, workbook());
}
