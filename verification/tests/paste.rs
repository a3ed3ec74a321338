use oo_spreadsheet::cells::CellValue;
use oo_spreadsheet::commands::{SpreadsheetCommand, FILL_SOURCE, FILL_TARGET, FILL_TOO_LARGE, SOURCE_ORIGIN_OVERFLOW};
use oo_spreadsheet::dependency::{CellModel, SheetModel, SpreadsheetModel};
use oo_spreadsheet::editing::{SpreadsheetClipboardOrigin, SpreadsheetPasteMode};
use oo_spreadsheet::engine::{SpreadsheetCommandBatch, SpreadsheetEngine};
use oo_spreadsheet::grid::GridRange;
use oo_spreadsheet::mutation::SpreadsheetMutation;
use oo_spreadsheet::paste::build_paste_after;
use oo_spreadsheet::sheet_edits::{SpreadsheetClipboardCell, SpreadsheetEngineError, CLIPBOARD_INVALID, RANGE_REVERSED};

fn workbook(cells: Vec<CellModel>) -> SpreadsheetModel {
    SpreadsheetModel {
        sheets: vec![SheetModel { id: "sheet-1".into(), name: "Sheet 1".into(), cells, ..SheetModel::default() }],
    }
}

fn engine() -> SpreadsheetEngine {
    SpreadsheetEngine::new(workbook(Vec::new()), 0).unwrap()
}

fn batch(base_revision: u64, command: SpreadsheetCommand) -> SpreadsheetCommandBatch {
    SpreadsheetCommandBatch { base_revision, commands: vec![command] }
}

fn clip(row_offset: u32, column_offset: u32, value: Option<&str>, style: Option<&str>) -> SpreadsheetClipboardCell {
    SpreadsheetClipboardCell {
        row_offset,
        column_offset,
        value: value.map(|v| CellValue::Text(v.into())),
        formula: None,
        attrs: Vec::new(),
        style: style.map(|s| s.to_string()),
    }
}

fn styled(row: u32, column: u32, value: &str, style: &str) -> CellModel {
    CellModel { row, column, value: Some(CellValue::Text(value.into())), style: Some(style.into()), ..CellModel::default() }
}

#[test]
fn paste_range_is_one_reversible_mutation_and_translates_formulas() {
    let mut engine = engine();
    let style = "{\"numberFormat\":\"0.00\"}";
    let change = engine
        .execute(batch(
            0,
            SpreadsheetCommand::PasteRange {
                sheet_id: "sheet-1".into(),
                start_row: 1,
                start_column: 2,
                row_count: 100,
                column_count: 100,
                cells: vec![SpreadsheetClipboardCell {
                    row_offset: 0,
                    column_offset: 0,
                    value: None,
                    formula: Some("=A1+$B1+C$1+$D$1+'Other Sheet'!E2".into()),
                    attrs: Vec::new(),
                    style: Some(style.into()),
                }],
                mode: SpreadsheetPasteMode::All,
                source_origin: Some(SpreadsheetClipboardOrigin { row: 0, column: 0 }),
            },
        ))
        .unwrap();
    assert_eq!(change.mutations.len(), 1);
    assert!(matches!(change.mutations[0], SpreadsheetMutation::RangeChanged { .. }));
    let pasted = &engine.model().sheets[0].cells[0];
    assert_eq!(pasted.formula.as_deref(), Some("=C2+$B2+E$1+$D$1+'Other Sheet'!G3"));
    assert_eq!(pasted.style.as_deref(), Some(style));
    engine.undo().unwrap();
    assert!(engine.model().sheets[0].cells.is_empty());
    engine.redo().unwrap();
    assert_eq!(engine.model().sheets[0].cells.len(), 1);
}

#[test]
fn fill_range_repeats_sparse_source_as_one_history_entry() {
    let mut engine = engine();
    engine
        .execute(batch(
            0,
            SpreadsheetCommand::SetCell {
                sheet_id: "sheet-1".into(),
                row: 0,
                column: 0,
                value: Some(CellValue::Number("1".into())),
                formula: Some("=B1".into()),
                attrs: Vec::new(),
            },
        ))
        .unwrap();
    let change = engine
        .execute(batch(
            1,
            SpreadsheetCommand::FillRange {
                source_sheet_id: "sheet-1".into(),
                source_range: GridRange { start_row: 0, start_column: 0, end_row: 0, end_column: 0 },
                destination_sheet_id: "sheet-1".into(),
                destination_range: GridRange { start_row: 1, start_column: 0, end_row: 10_000, end_column: 0 },
                mode: SpreadsheetPasteMode::All,
            },
        ))
        .unwrap();
    assert_eq!(change.mutations.len(), 1);
    assert_eq!(engine.model().sheets[0].cells.len(), 10_001);
    assert_eq!(engine.model().sheets[0].cells[1].formula.as_deref(), Some("=B2"));
    assert_eq!(engine.model().sheets[0].cells[10_000].formula.as_deref(), Some("=B10001"));
    engine.undo().unwrap();
    assert_eq!(engine.model().sheets[0].cells.len(), 1);
}

#[test]
fn paste_modes_keep_what_they_do_not_write() {
    let model = workbook(vec![styled(0, 0, "old", "bold"), styled(0, 1, "keep", "italic"), styled(5, 5, "far", "x")]);
    let range = GridRange { start_row: 0, start_column: 0, end_row: 0, end_column: 1 };
    let cells = vec![(clip(0, 0, Some("new"), Some("red")), None)];
    let (before, after) = build_paste_after(&model, "sheet-1", range, cells.clone(), SpreadsheetPasteMode::Values).unwrap();
    assert_eq!(before, vec![styled(0, 0, "old", "bold"), styled(0, 1, "keep", "italic")]);
    assert_eq!(
        after,
        vec![
            styled(0, 0, "new", "bold"),
            CellModel { row: 0, column: 1, style: Some("italic".into()), ..CellModel::default() },
        ]
    );
    let (_, after) = build_paste_after(&model, "sheet-1", range, cells.clone(), SpreadsheetPasteMode::Formats).unwrap();
    assert_eq!(
        after,
        vec![
            styled(0, 0, "old", "red"),
            CellModel { row: 0, column: 1, value: Some(CellValue::Text("keep".into())), ..CellModel::default() },
        ]
    );
    let (_, after) = build_paste_after(&model, "sheet-1", range, cells, SpreadsheetPasteMode::All).unwrap();
    assert_eq!(after, vec![styled(0, 0, "new", "red")]);
    assert_eq!(
        build_paste_after(&model, "missing", range, Vec::new(), SpreadsheetPasteMode::All),
        Err(SpreadsheetEngineError::MissingSheet("missing".into()))
    );
}

#[test]
fn paste_and_fill_refuse_bad_blocks() {
    let mut engine = engine();
    let paste = |cells: Vec<SpreadsheetClipboardCell>, origin: Option<SpreadsheetClipboardOrigin>| SpreadsheetCommand::PasteRange {
        sheet_id: "sheet-1".into(),
        start_row: 0,
        start_column: 0,
        row_count: 2,
        column_count: 2,
        cells,
        mode: SpreadsheetPasteMode::All,
        source_origin: origin,
    };
    assert_eq!(
        engine.execute(batch(0, paste(vec![clip(2, 0, Some("x"), None)], None))),
        Err(SpreadsheetEngineError::InvalidMutation(CLIPBOARD_INVALID.into()))
    );
    assert_eq!(
        engine.execute(batch(
            0,
            paste(vec![clip(0, 0, Some("x"), None)], Some(SpreadsheetClipboardOrigin { row: u32::MAX, column: 0 }))
        )),
        Err(SpreadsheetEngineError::InvalidMutation(SOURCE_ORIGIN_OVERFLOW.into()))
    );
    assert_eq!(
        engine.execute(batch(
            0,
            SpreadsheetCommand::FillRange {
                source_sheet_id: "sheet-1".into(),
                source_range: GridRange { start_row: 0, start_column: 0, end_row: 0, end_column: 0 },
                destination_sheet_id: "sheet-1".into(),
                destination_range: GridRange { start_row: 0, start_column: 0, end_row: 1000, end_column: 1000 },
                mode: SpreadsheetPasteMode::All,
            }
        )),
        Err(SpreadsheetEngineError::InvalidMutation(FILL_TOO_LARGE.into()))
    );
    let change = engine.execute(batch(0, paste(vec![clip(1, 1, Some("x"), None)], None))).unwrap();
    assert_eq!(change.revision, 1);
    assert_eq!(engine.model().sheets[0].cells[0].row, 1);
    assert_eq!(engine.model().sheets[0].cells[0].column, 1);
}

#[test]
fn fill_wraps_the_source_block_over_the_destination() {
    let model = workbook(vec![
        CellModel { row: 0, column: 0, value: Some(CellValue::Text("a".into())), ..CellModel::default() },
        CellModel { row: 1, column: 0, formula: Some("=C1".into()), ..CellModel::default() },
    ]);
    let mut engine = SpreadsheetEngine::new(model, 0).unwrap();
    engine
        .execute(batch(
            0,
            SpreadsheetCommand::FillRange {
                source_sheet_id: "sheet-1".into(),
                source_range: GridRange { start_row: 0, start_column: 0, end_row: 1, end_column: 0 },
                destination_sheet_id: "sheet-1".into(),
                destination_range: GridRange { start_row: 0, start_column: 1, end_row: 3, end_column: 1 },
                mode: SpreadsheetPasteMode::All,
            },
        ))
        .unwrap();
    let cells = &engine.model().sheets[0].cells;
    let at = |row: u32, column: u32| cells.iter().find(|c| c.row == row && c.column == column).cloned();
    assert_eq!(at(0, 1).unwrap().value, Some(CellValue::Text("a".into())));
    assert_eq!(at(1, 1).unwrap().formula.as_deref(), Some("=D1"));
    assert_eq!(at(2, 1).unwrap().value, Some(CellValue::Text("a".into())));
    assert_eq!(at(3, 1).unwrap().formula.as_deref(), Some("=D3"));
}

#[test]
fn fill_refuses_reversed_ranges_and_missing_sheets() {
    let mut engine = engine();
    let fill = |source: GridRange, destination: GridRange, sheet: &str| SpreadsheetCommand::FillRange {
        source_sheet_id: sheet.into(),
        source_range: source,
        destination_sheet_id: "sheet-1".into(),
        destination_range: destination,
        mode: SpreadsheetPasteMode::All,
    };
    let forward = GridRange { start_row: 0, start_column: 0, end_row: 1, end_column: 1 };
    let reversed = GridRange { start_row: 2, start_column: 0, end_row: 1, end_column: 1 };
    assert_eq!(
        engine.execute(batch(0, fill(reversed, forward, "sheet-1"))),
        Err(SpreadsheetEngineError::InvalidMutation(format!("{FILL_SOURCE}{RANGE_REVERSED}")))
    );
    assert_eq!(
        engine.execute(batch(0, fill(forward, reversed, "sheet-1"))),
        Err(SpreadsheetEngineError::InvalidMutation(format!("{FILL_TARGET}{RANGE_REVERSED}")))
    );
    assert_eq!(
        engine.execute(batch(0, fill(forward, forward, "nowhere"))),
        Err(SpreadsheetEngineError::MissingSheet("nowhere".into()))
    );
    assert_eq!(engine.execute(batch(0, fill(forward, forward, "sheet-1"))), Err(SpreadsheetEngineError::NoChanges));
}
