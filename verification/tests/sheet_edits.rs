use oo_spreadsheet::address::CellAddress;
use oo_spreadsheet::dependency::{CellModel, SheetMetadata, SheetModel, SpreadsheetModel};
use oo_spreadsheet::grid::GridRange;
use oo_spreadsheet::sheet_edits::{
    checked_paste_range, find_cell, range_cells, sheet_at, sheet_index, validate_clipboard_cells,
    validate_grid_range, SpreadsheetClipboardCell, SpreadsheetEngineError,
};

fn workbook() -> SpreadsheetModel {
    SpreadsheetModel {
        sheets: vec![
            SheetModel {
                id: "s1".into(),
                name: "Data".into(),
                cells: vec![CellModel { row: 1, column: 1, formula: Some("=A1".into()), ..CellModel::default() }],
                metadata: SheetMetadata { row_count: Some(10), column_count: None, ..SheetMetadata::default() }, merged_ranges: Vec::new() },
            SheetModel { id: "s2".into(), name: "Other".into(), ..SheetModel::default() },
        ],
    }
}

fn invalid(message: &str) -> SpreadsheetEngineError {
    SpreadsheetEngineError::InvalidMutation(message.into())
}

fn clip(row_offset: u32, column_offset: u32) -> SpreadsheetClipboardCell {
    SpreadsheetClipboardCell { row_offset, column_offset, value: None, formula: None, attrs: Vec::new(), style: None }
}

#[test]
fn sheets_and_cells_are_found_by_id_and_position() {
    let model = workbook();
    assert_eq!(sheet_index(&model, "s2"), Ok(1));
    assert_eq!(sheet_at(&model, "s1").map(|sheet| sheet.name.clone()), Ok("Data".to_string()));
    assert_eq!(sheet_index(&model, "s9"), Err(SpreadsheetEngineError::MissingSheet("s9".into())));
    let address = CellAddress { sheet_id: "s1".into(), row: 1, column: 1 };
    assert_eq!(find_cell(&model, &address).and_then(|cell| cell.formula.clone()), Some("=A1".to_string()));
    let blank = CellAddress { sheet_id: "s1".into(), row: 0, column: 1 };
    assert_eq!(find_cell(&model, &blank), None);
}

#[test]
fn reversed_ranges_are_refused_by_label() {
    let fine = GridRange { start_row: 1, end_row: 1, start_column: 0, end_column: 4 };
    assert_eq!(validate_grid_range(fine, "填充源区域"), Ok(()));
    let reversed = GridRange { start_row: 2, end_row: 1, start_column: 0, end_column: 4 };
    assert_eq!(validate_grid_range(reversed, "填充源区域"), Err(invalid("填充源区域起点不得超过终点")));
}

#[test]
fn paste_targets_are_checked_in_order() {
    let model = workbook();
    assert_eq!(checked_paste_range(&model, "s1", 0, 0, 0, 3), Err(invalid("粘贴区域行列数必须大于零")));
    assert_eq!(checked_paste_range(&model, "s1", 0, 0, 1000, 101), Err(invalid("粘贴区域超过 100000 个单元格")));
    assert_eq!(checked_paste_range(&model, "s1", u32::MAX, 0, 2, 1), Err(invalid("粘贴行坐标溢出")));
    assert_eq!(checked_paste_range(&model, "s1", 0, u32::MAX, 1, 2), Err(invalid("粘贴列坐标溢出")));
    assert_eq!(checked_paste_range(&model, "nope", 0, 0, 1, 1), Err(SpreadsheetEngineError::MissingSheet("nope".into())));
    assert_eq!(checked_paste_range(&model, "s1", 5, 0, 6, 1), Err(invalid("粘贴区域超出工作表边界")));
    assert_eq!(
        checked_paste_range(&model, "s1", 5, 16380, 5, 4),
        Ok(GridRange { start_row: 5, end_row: 9, start_column: 16380, end_column: 16383 })
    );
    assert_eq!(checked_paste_range(&model, "s2", 0, 16380, 1, 5), Err(invalid("粘贴区域超出工作表边界")));
}

#[test]
fn clipboard_cells_must_fit_and_not_repeat() {
    assert_eq!(validate_clipboard_cells(&[clip(0, 0), clip(1, 2)], 2, 3), Ok(()));
    let refused = invalid("剪贴板单元格坐标越界或重复");
    assert_eq!(validate_clipboard_cells(&[clip(0, 0), clip(2, 0)], 2, 3), Err(refused.clone()));
    assert_eq!(validate_clipboard_cells(&[clip(1, 1), clip(0, 0), clip(1, 1)], 2, 3), Err(refused));
}

#[test]
fn range_cells_copies_the_cells_inside_an_inclusive_range_in_sheet_order() {
    let sheet = SheetModel {
        id: "s1".into(),
        name: "Data".into(),
        cells: vec![
            CellModel { row: 4, column: 1, formula: Some("=B2".into()), ..CellModel::default() },
            CellModel { row: 0, column: 0, formula: None, ..CellModel::default() },
            CellModel { row: 2, column: 3, formula: None, ..CellModel::default() },
            CellModel { row: 2, column: 1, formula: None, ..CellModel::default() },
        ],
        ..SheetModel::default()
    };
    let range = GridRange { start_row: 1, end_row: 4, start_column: 1, end_column: 2 };
    assert_eq!(
        range_cells(&sheet, range),
        vec![
            CellModel { row: 4, column: 1, formula: Some("=B2".into()), ..CellModel::default() },
            CellModel { row: 2, column: 1, formula: None, ..CellModel::default() },
        ]
    );
}
