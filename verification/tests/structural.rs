use oo_spreadsheet::cells::CellValue;
use oo_spreadsheet::commands::SpreadsheetCommand;
use oo_spreadsheet::dependency::{CellModel, FreezePane, SheetMetadata, SheetModel, SpreadsheetModel};
use oo_spreadsheet::engine::{SpreadsheetChangeSet, SpreadsheetCommandBatch, SpreadsheetEngine};
use oo_spreadsheet::grid::GridRange;
use oo_spreadsheet::remap::{RemapOp, SheetAxis};
use oo_spreadsheet::rewrite::rewrite_formula;
use oo_spreadsheet::sheet_edits::SpreadsheetEngineError;
use oo_spreadsheet::sheet_name::SheetLookup;
use oo_spreadsheet::structural::{remap_sheet, rewrite_lookup, STRUCTURAL_EDIT_OVERFLOW};

fn text(row: u32, column: u32, t: &str) -> CellModel {
    CellModel { row, column, value: Some(CellValue::Text(t.into())), ..CellModel::default() }
}

fn number(row: u32, column: u32, n: &str) -> CellModel {
    CellModel { row, column, value: Some(CellValue::Number(n.into())), ..CellModel::default() }
}

fn formula(row: u32, column: u32, f: &str) -> CellModel {
    CellModel { row, column, formula: Some(f.into()), ..CellModel::default() }
}

fn one_sheet(cells: Vec<CellModel>, metadata: SheetMetadata, merged_ranges: Vec<GridRange>) -> SpreadsheetModel {
    SpreadsheetModel {
        sheets: vec![SheetModel { id: "sheet-1".into(), name: "Sheet 1".into(), cells, metadata, merged_ranges }],
    }
}

fn edit(base_revision: u64, command: SpreadsheetCommand) -> SpreadsheetCommandBatch {
    SpreadsheetCommandBatch { base_revision, commands: vec![command] }
}

fn formula_engine(cells: Vec<CellModel>) -> SpreadsheetEngine {
    let metadata = SheetMetadata { row_count: Some(10), column_count: Some(10), ..SheetMetadata::default() };
    SpreadsheetEngine::new(one_sheet(cells, metadata, Vec::new()), 0).unwrap()
}

fn cell_formula(engine: &SpreadsheetEngine, row: u32, column: u32) -> Option<String> {
    engine.model().sheets[0]
        .cells
        .iter()
        .find(|cell| cell.row == row && cell.column == column)
        .and_then(|cell| cell.formula.clone())
}

fn entity_ids(change: &SpreadsheetChangeSet) -> Vec<String> {
    change.invalidation.changed_entities.iter().map(|entity| entity.entity_id.clone()).collect()
}

#[test]
fn insert_rows_shifts_cells_and_grows_merge_range() {
    let metadata = SheetMetadata { freeze: FreezePane { rows: 1, columns: 0 }, row_count: Some(6), ..SheetMetadata::default() };
    let merged = vec![GridRange { start_row: 1, start_column: 0, end_row: 1, end_column: 1 }];
    let mut engine =
        SpreadsheetEngine::new(one_sheet(vec![text(0, 0, "A"), text(2, 0, "C"), text(5, 0, "F")], metadata, merged), 0)
            .unwrap();
    let result = engine
        .execute(edit(0, SpreadsheetCommand::InsertRows { sheet_id: "sheet-1".into(), at: 1, count: 2 }))
        .unwrap();
    assert!(result.invalidation.structure_changed);
    let sheet = &engine.model().sheets[0];
    assert_eq!(sheet.cells[0].row, 0);
    assert_eq!(sheet.cells[1].row, 4);
    assert_eq!(sheet.cells[2].row, 7);
    assert_eq!(sheet.merged_ranges[0], GridRange { start_row: 3, start_column: 0, end_row: 3, end_column: 1 });
    assert_eq!(sheet.metadata.freeze.rows, 1);
    assert_eq!(sheet.metadata.row_count, Some(8));
    engine.undo().unwrap();
    assert_eq!(engine.model().sheets[0].cells.len(), 3);
    assert_eq!(engine.model().sheets[0].cells[0].row, 0);
}

#[test]
fn delete_rows_drops_cells_and_contracts_merge_and_freeze() {
    let metadata = SheetMetadata { freeze: FreezePane { rows: 2, columns: 0 }, row_count: Some(6), ..SheetMetadata::default() };
    let merged = vec![GridRange { start_row: 1, start_column: 0, end_row: 2, end_column: 0 }];
    let cells = vec![text(0, 0, "A"), text(1, 0, "B"), text(2, 0, "C"), text(4, 0, "E")];
    let mut engine = SpreadsheetEngine::new(one_sheet(cells, metadata, merged), 0).unwrap();
    engine
        .execute(edit(0, SpreadsheetCommand::DeleteRows { sheet_id: "sheet-1".into(), at: 1, count: 2 }))
        .unwrap();
    let sheet = &engine.model().sheets[0];
    assert_eq!(sheet.cells.len(), 2);
    assert_eq!(sheet.cells[0].row, 0);
    assert_eq!(sheet.cells[1].row, 2);
    assert!(sheet.merged_ranges.is_empty());
    assert_eq!(sheet.metadata.freeze.rows, 1);
    assert_eq!(sheet.metadata.row_count, Some(4));
}

#[test]
fn structural_edit_rebuilds_dependency_cache_for_followup_writes() {
    let metadata = SheetMetadata { row_count: Some(5), ..SheetMetadata::default() };
    let mut engine =
        SpreadsheetEngine::new(one_sheet(vec![number(0, 0, "1"), formula(0, 1, "=A1 + 1")], metadata, Vec::new()), 0)
            .unwrap();
    let set = |n: &str| SpreadsheetCommand::SetCell {
        sheet_id: "sheet-1".into(),
        row: 0,
        column: 0,
        value: Some(CellValue::Number(n.into())),
        formula: None,
        attrs: Vec::new(),
    };
    engine.execute(edit(0, set("2"))).unwrap();
    engine
        .execute(edit(1, SpreadsheetCommand::InsertRows { sheet_id: "sheet-1".into(), at: 1, count: 3 }))
        .unwrap();
    let result = engine.execute(edit(2, set("9"))).unwrap();
    let ids = entity_ids(&result);
    assert!(ids.contains(&"sheet-1:0:1".to_string()), "dependents survive the rebuild");
}

#[test]
fn insert_rows_rewrites_formula_references_below_the_insertion() {
    let mut engine = formula_engine(vec![
        number(0, 0, "1"),
        formula(2, 0, "=A1 + 10"),
        formula(3, 0, "=A3 * 2"),
        formula(4, 0, "=SUM(A1:A3)"),
    ]);
    engine
        .execute(edit(0, SpreadsheetCommand::InsertRows { sheet_id: "sheet-1".into(), at: 1, count: 2 }))
        .unwrap();
    assert_eq!(cell_formula(&engine, 4, 0).as_deref(), Some("=A1 + 10"), "引用 A1 不动");
    assert_eq!(cell_formula(&engine, 5, 0).as_deref(), Some("=A5 * 2"), "跟随单元格下移");
    assert_eq!(cell_formula(&engine, 6, 0).as_deref(), Some("=SUM(A1:A5)"), "范围扩展");
}

#[test]
fn delete_rows_turns_swallowed_references_into_ref_error() {
    let mut engine =
        formula_engine(vec![formula(4, 0, "=A2 + 1"), formula(5, 0, "=SUM(A2:A4)"), formula(6, 0, "=SUM(A1:A5)")]);
    engine
        .execute(edit(0, SpreadsheetCommand::DeleteRows { sheet_id: "sheet-1".into(), at: 1, count: 2 }))
        .unwrap();
    assert_eq!(cell_formula(&engine, 2, 0).as_deref(), Some("=#REF! + 1"));
    assert_eq!(cell_formula(&engine, 3, 0).as_deref(), Some("=SUM(A2)"));
    assert_eq!(cell_formula(&engine, 4, 0).as_deref(), Some("=SUM(A1:A3)"), "部分覆盖收缩");
}

#[test]
fn insert_columns_rewrites_column_references_and_keeps_absolute_markers() {
    let mut engine = formula_engine(vec![formula(0, 3, "=$B1 + C1")]);
    engine
        .execute(edit(0, SpreadsheetCommand::InsertColumns { sheet_id: "sheet-1".into(), at: 0, count: 1 }))
        .unwrap();
    assert_eq!(cell_formula(&engine, 0, 4).as_deref(), Some("=$C1 + D1"));
}

#[test]
fn rewrite_keeps_strings_other_sheets_and_identifiers() {
    let model = SpreadsheetModel {
        sheets: vec![
            SheetModel { id: "data".into(), name: "Data".into(), ..SheetModel::default() },
            SheetModel { id: "report".into(), name: "Report".into(), ..SheetModel::default() },
        ],
    };
    let lookup = rewrite_lookup(&model);
    let insert = RemapOp::Insert(1, 1);
    assert_eq!(rewrite_formula("=Data!A2 + 1", "report", &lookup, "data", SheetAxis::Row, insert), "=Data!A3 + 1");
    assert_eq!(rewrite_formula("=SUM(Data!A1:A2)", "report", &lookup, "data", SheetAxis::Row, insert), "=SUM(Data!A1:A3)");
    assert_eq!(rewrite_formula("=A2 & \"A2\"", "data", &lookup, "data", SheetAxis::Row, insert), "=A3 & \"A2\"");
    assert_eq!(rewrite_formula("=Report!A2 + ABS(A2)", "data", &lookup, "data", SheetAxis::Row, insert), "=Report!A2 + ABS(A3)");
    assert_eq!(rewrite_formula("=A2", "report", &lookup, "data", SheetAxis::Row, insert), "=A2");
    assert_eq!(rewrite_formula("=$A$5:B$2", "data", &lookup, "data", SheetAxis::Row, insert), "=$A$3:B$6");
    assert_eq!(
        rewrite_formula("=SUM(B1:D1)", "data", &lookup, "data", SheetAxis::Column, RemapOp::Delete(1, 3)),
        "=SUM(#REF!)"
    );
    assert_eq!(rewrite_formula("=Z1", "data", &SheetLookup::new(), "data", SheetAxis::Column, RemapOp::Insert(0, 1)), "=AA1");
}

#[test]
fn remap_sheet_refuses_an_insert_past_the_last_row() {
    let model = one_sheet(vec![text(u32::MAX - 1, 0, "end")], SheetMetadata::default(), Vec::new());
    let lookup = rewrite_lookup(&model);
    assert_eq!(
        remap_sheet(&model.sheets[0], SheetAxis::Row, RemapOp::Insert(0, 2), "sheet-1", &lookup),
        Err(SpreadsheetEngineError::InvalidMutation(STRUCTURAL_EDIT_OVERFLOW.into()))
    );
    let moved = remap_sheet(&model.sheets[0], SheetAxis::Row, RemapOp::Insert(0, 1), "sheet-1", &lookup).unwrap();
    assert_eq!(moved.cells[0].row, u32::MAX);
    let mut engine = SpreadsheetEngine::new(model, 0).unwrap();
    assert_eq!(
        engine.execute(edit(0, SpreadsheetCommand::InsertRows { sheet_id: "sheet-1".into(), at: 0, count: 0 })),
        Err(SpreadsheetEngineError::NoChanges)
    );
    assert_eq!(
        engine.execute(edit(0, SpreadsheetCommand::DeleteColumns { sheet_id: "missing".into(), at: 0, count: 1 })),
        Err(SpreadsheetEngineError::MissingSheet("missing".into()))
    );
}

#[test]
fn deleting_inserted_columns_restores_the_sheet() {
    let metadata = SheetMetadata { freeze: FreezePane { rows: 0, columns: 2 }, column_count: Some(6), ..SheetMetadata::default() };
    let merged = vec![GridRange { start_row: 0, start_column: 1, end_row: 1, end_column: 3 }];
    let model = one_sheet(vec![text(0, 0, "a"), formula(0, 4, "=B1+D1")], metadata, merged);
    let mut engine = SpreadsheetEngine::new(model.clone(), 0).unwrap();
    engine
        .execute(edit(0, SpreadsheetCommand::InsertColumns { sheet_id: "sheet-1".into(), at: 1, count: 2 }))
        .unwrap();
    assert_eq!(cell_formula(&engine, 0, 6).as_deref(), Some("=D1+F1"));
    assert_eq!(engine.model().sheets[0].metadata.freeze.columns, 4);
    engine
        .execute(edit(1, SpreadsheetCommand::DeleteColumns { sheet_id: "sheet-1".into(), at: 1, count: 2 }))
        .unwrap();
    assert_eq!(engine.model(), &model);
}

#[test]
fn cross_sheet_references_follow_the_structural_edit() {
    let model = SpreadsheetModel {
        sheets: vec![
            SheetModel {
                id: "data".into(),
                name: "Data".into(),
                cells: vec![number(0, 0, "1"), number(1, 0, "2")],
                metadata: SheetMetadata { row_count: Some(10), ..SheetMetadata::default() },
                ..SheetModel::default()
            },
            SheetModel {
                id: "report".into(),
                name: "Report".into(),
                cells: vec![formula(0, 0, "=Data!A2 + 1"), formula(0, 1, "=SUM(Data!A1:A2)")],
                ..SheetModel::default()
            },
        ],
    };
    let mut engine = SpreadsheetEngine::new(model.clone(), 0).unwrap();
    let change = engine
        .execute(edit(0, SpreadsheetCommand::InsertRows { sheet_id: "data".into(), at: 1, count: 1 }))
        .unwrap();
    assert_eq!(change.mutations.len(), 2);
    let report = engine.model().sheets.iter().find(|sheet| sheet.id == "report").unwrap();
    assert_eq!(report.cells[0].formula.as_deref(), Some("=Data!A3 + 1"), "跨表引用跟随平移");
    assert_eq!(report.cells[1].formula.as_deref(), Some("=SUM(Data!A1:A3)"), "跨表范围扩展");
    let data = engine.model().sheets.iter().find(|sheet| sheet.id == "data").unwrap();
    assert_eq!(data.cells[1].row, 2);
    engine.undo().unwrap();
    assert_eq!(engine.model(), &model);
}
