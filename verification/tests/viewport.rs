use oo_spreadsheet::address::CellAddress;
use oo_spreadsheet::cells::CellValue;
use oo_spreadsheet::dependency::{CellModel, SheetModel, SpreadsheetModel};
use oo_spreadsheet::grid::{GridViewport, ViewportError};
use oo_spreadsheet::viewport::{SparseGridViewport, ViewportCell};
use std::time::Instant;

fn blank(row: u32, column: u32) -> CellModel {
    CellModel { row, column, formula: None, ..CellModel::default() }
}

fn one_sheet(cells: Vec<CellModel>) -> SpreadsheetModel {
    SpreadsheetModel {
        sheets: vec![SheetModel { id: "sheet-1".into(), name: "Sheet 1".into(), cells, ..SheetModel::default() }],
    }
}

#[test]
fn projects_only_materialized_cells_in_a_bounded_window() {
    let model = one_sheet(vec![blank(2, 3), blank(100, 100)]);
    let viewport = GridViewport::new(0, 10, 0, 10).unwrap();
    let projection = SparseGridViewport::project(&model, "sheet-1", viewport).unwrap();
    assert_eq!(projection.cells.len(), 1);
    assert_eq!(projection.cells[0].address.row, 2);
    assert!(projection.is_sparse());
}

#[test]
fn rejects_empty_window_and_unknown_sheet() {
    assert_eq!(GridViewport::new(0, 0, 0, 1), Err(ViewportError::EmptyRange));
    let viewport = GridViewport::new(0, 1, 0, 1).unwrap();
    assert_eq!(
        SparseGridViewport::project(&SpreadsheetModel::default(), "missing", viewport),
        Err(ViewportError::MissingSheet("missing".into()))
    );
}

fn dense_model(rows: u32, cols: u32) -> SpreadsheetModel {
    let mut cells = Vec::with_capacity((rows * cols) as usize);
    for row in 0..rows {
        for col in 0..cols {
            cells.push(blank(row, col));
        }
    }
    one_sheet(cells)
}

#[test]
fn perf_viewport_projects_bounded_window() {
    let model = dense_model(200, 500);
    let viewport = GridViewport::new(40, 90, 20, 70).unwrap();

    let started = Instant::now();
    let projection = SparseGridViewport::project(&model, "sheet-1", viewport).unwrap();
    let elapsed_ms = started.elapsed().as_secs_f64() * 1000.0;

    println!(
        "perf_viewport project_ms={elapsed_ms:.3} projected_cells={} is_sparse={}",
        projection.cells.len(),
        projection.is_sparse()
    );
    assert_eq!(projection.cells.len(), 50 * 50);
    assert!(elapsed_ms < 10.0, "viewport projection took {elapsed_ms:.3}ms");
}

#[test]
fn projection_orders_by_row_then_column_and_keeps_ties_in_sheet_order() {
    let model = one_sheet(vec![
        CellModel { row: 3, column: 1, formula: Some("=1".into()), ..CellModel::default() },
        blank(1, 4),
        CellModel { row: 3, column: 1, formula: Some("=2".into()), ..CellModel::default() },
        blank(1, 2),
        blank(9, 9),
    ]);
    let viewport = GridViewport::new(0, 5, 0, 5).unwrap();
    let projection = SparseGridViewport::project(&model, "sheet-1", viewport).unwrap();
    let at = |row: u32, column: u32, formula: Option<&str>| ViewportCell {
        address: CellAddress { sheet_id: "sheet-1".into(), row, column },
        value: None,
        formula: formula.map(String::from),
        attrs: Vec::new(),
        style: None,
    };
    assert_eq!(
        projection.cells,
        vec![at(1, 2, None), at(1, 4, None), at(3, 1, Some("=1")), at(3, 1, Some("=2"))]
    );
    assert_eq!(projection.materialized_cell_count, 4);
    assert_eq!(projection.sheet_id, "sheet-1");
    assert!(projection.is_sparse());
}

#[test]
fn projection_copies_value_attributes_and_style() {
    let model = one_sheet(vec![CellModel {
        row: 1,
        column: 1,
        value: Some(CellValue::Number("42".into())),
        formula: None,
        attrs: vec![("note".into(), "\"kept\"".into())],
        style: Some("{\"bold\":true}".into()),
    }]);
    let viewport = GridViewport::new(0, 3, 0, 3).unwrap();
    let projection = SparseGridViewport::project(&model, "sheet-1", viewport).unwrap();
    assert_eq!(projection.cells[0].value, Some(CellValue::Number("42".into())));
    assert_eq!(projection.cells[0].attrs, vec![("note".to_string(), "\"kept\"".to_string())]);
    assert_eq!(projection.cells[0].style.as_deref(), Some("{\"bold\":true}"));
}
